use scream::layout::{Grid, Placement};
use scream::streams::{Change, Streams};
use scream::windows::CoordEvent;

fn opened(identifier: &str) -> CoordEvent {
    CoordEvent::NewToplevel {
        identifier: identifier.to_string(),
        app_id: "app".to_string(),
        title: "title".to_string(),
    }
}

fn closed(identifier: &str) -> CoordEvent {
    CoordEvent::ToplevelClosed { identifier: identifier.to_string() }
}

#[test]
fn a_window_is_composed_once() {
    let mut streams = Streams::new(1000, 500);
    match streams.manage(opened("a"), true) {
        Change::Open { identifier, app_id, title, cell_w, cell_h } => {
            assert_eq!((identifier.as_str(), app_id.as_str(), title.as_str()), ("a", "app", "title"));
            assert_eq!((cell_w, cell_h), (1000, 500));
        }
        _ => panic!("not opened"),
    }
    assert!(matches!(streams.manage(opened("a"), true), Change::Nothing));
    assert!(matches!(streams.manage(opened("b"), true), Change::Open { cell_w: 500, cell_h: 500, .. }));
    assert_eq!(streams.count(), 2);
    assert_eq!(
        streams.recalculate_layout(),
        vec![
            Placement { x: 0, y: 0, width: 500, height: 500 },
            Placement { x: 500, y: 0, width: 500, height: 500 },
        ]
    );
}

#[test]
fn closing_a_window_undoes_opening_it() {
    let mut streams = Streams::new(1000, 500);
    streams.manage(opened("a"), true);
    streams.manage(opened("b"), true);
    let before = streams.recalculate_layout();
    streams.manage(opened("c"), true);
    assert_eq!(streams.recalculate_layout().len(), 3);
    match streams.manage(closed("c"), true) {
        Change::Close { identifier, place } => assert_eq!((identifier.as_str(), place), ("c", Some(2))),
        _ => panic!("not closed"),
    }
    assert_eq!(streams.recalculate_layout(), before);
    assert!(matches!(streams.manage(closed("c"), true), Change::Close { place: None, .. }));
    assert!(matches!(streams.manage(closed("a"), true), Change::Close { place: Some(0), .. }));
    assert_eq!(streams.remove_stream("b"), Some(0));
    assert!(streams.recalculate_layout().is_empty());
}

#[test]
fn the_canvas_follows_the_output_only_where_no_size_was_asked_for() {
    let size = |width, height| CoordEvent::OutputSize { width, height };
    let mut fixed = Streams::new(1000, 500);
    assert!(matches!(fixed.manage(size(10, 20), false), Change::Nothing));
    assert_eq!(fixed.add_stream("a".to_string()), Some(Grid::new(1, 1000, 500)));
    let mut dynamic = Streams::new(1000, 500);
    assert!(matches!(dynamic.manage(size(1000, 500), true), Change::Nothing));
    assert!(matches!(dynamic.manage(size(10, 20), true), Change::Resize { width: 10, height: 20 }));
    assert_eq!(dynamic.add_stream("a".to_string()), Some(Grid::new(1, 10, 20)));
    assert_eq!(dynamic.add_stream("a".to_string()), None);
    assert!(!dynamic.update_output_size(10, 20));
}
