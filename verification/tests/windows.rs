use scream::windows::{CoordEvent, Seek, Target, Watch, WindowEvent};

fn shown(events: Vec<CoordEvent>) -> Vec<String> {
    events
        .into_iter()
        .map(|e| match e {
            CoordEvent::NewToplevel { identifier, app_id, title } => format!("+{identifier}/{app_id}/{title}"),
            CoordEvent::ToplevelClosed { identifier } => format!("-{identifier}"),
            CoordEvent::OutputSize { width, height } => format!("{width}x{height}"),
        })
        .collect()
}

fn open(watch: &mut Watch, handle: u64, id: &str) {
    watch.appeared(handle);
    watch.event(handle, WindowEvent::Identifier(id.to_string()));
    watch.event(handle, WindowEvent::AppId(format!("app-{id}")));
    watch.event(handle, WindowEvent::Title(format!("title-{id}")));
    watch.event(handle, WindowEvent::Done);
}

#[test]
fn windows_are_reported_once_they_are_described() {
    let mut watch = Watch::new();
    watch.appeared(1);
    watch.event(1, WindowEvent::Identifier("a".to_string()));
    assert!(shown(watch.report()).is_empty());
    watch.event(1, WindowEvent::Done);
    assert_eq!(shown(watch.report()), vec!["+a//"]);
    watch.event(1, WindowEvent::Title("new".to_string()));
    watch.event(1, WindowEvent::Done);
    assert!(shown(watch.report()).is_empty());
    // One without an identifier is never reported
    watch.appeared(2);
    watch.event(2, WindowEvent::Done);
    assert!(shown(watch.report()).is_empty());
}

#[test]
fn closed_windows_are_reported() {
    let mut watch = Watch::new();
    open(&mut watch, 1, "a");
    open(&mut watch, 2, "b");
    open(&mut watch, 3, "c");
    assert_eq!(shown(watch.report()), vec!["+a/app-a/title-a", "+b/app-b/title-b", "+c/app-c/title-c"]);
    watch.event(2, WindowEvent::Closed);
    watch.event(2, WindowEvent::Closed);
    watch.event(9, WindowEvent::Closed);
    open(&mut watch, 4, "d");
    assert_eq!(shown(watch.report()), vec!["+d/app-d/title-d", "-b"]);
    assert!(shown(watch.report()).is_empty());
    // Without an identifier there is nothing to report
    watch.appeared(5);
    watch.event(5, WindowEvent::Closed);
    assert!(shown(watch.report()).is_empty());
}

#[test]
fn the_output_is_reported_when_its_size_changes() {
    let mut watch = Watch::new();
    assert_eq!(watch.output(), (0, 0));
    watch.output_mode(0, 1080);
    assert!(shown(watch.report()).is_empty());
    watch.output_mode(1920, 1080);
    open(&mut watch, 1, "a");
    assert_eq!(shown(watch.report()), vec!["1920x1080", "+a/app-a/title-a"]);
    watch.output_mode(1920, 1080);
    assert!(shown(watch.report()).is_empty());
    watch.output_mode(1920, 1200);
    assert_eq!(shown(watch.report()), vec!["1920x1200"]);
    assert_eq!(watch.output(), (1920, 1200));
}

#[test]
fn a_target_is_found_by_its_identifier() {
    let mut target = Target::new("b".to_string());
    assert_eq!(target.seek(false, false), Seek::Wait);
    for (handle, id) in [(1, "a"), (2, "b")] {
        target.appeared(handle);
        target.event(handle, WindowEvent::Identifier(id.to_string()));
    }
    assert_eq!(target.found(), None);
    assert_eq!(target.seek(false, true), Seek::Missing);
    target.event(2, WindowEvent::Done);
    assert_eq!(target.seek(false, true), Seek::Found { handle: 2 });
    assert_eq!(target.seek(true, false), Seek::Stop);
}

#[test]
fn only_the_target_ends_a_capture() {
    let mut target = Target::new("b".to_string());
    target.appeared(1);
    target.appeared(2);
    target.event(1, WindowEvent::Identifier("a".to_string()));
    target.event(2, WindowEvent::Identifier("b".to_string()));
    assert!(!target.event(1, WindowEvent::Closed));
    assert!(!target.event(7, WindowEvent::Closed));
    assert!(!target.event(2, WindowEvent::Title("b".to_string())));
    assert!(target.event(2, WindowEvent::Closed));
}

#[test]
fn over_a_run_everything_is_reported_once() {
    let mut watch = Watch::new();
    let mut made = Vec::new();
    for round in 0..4u64 {
        watch.output_mode(100 + (round / 2) as u32, 50);
        open(&mut watch, round, &format!("w{round}"));
        made.extend(shown(watch.report()));
        if round > 0 {
            // Another window closes, the others stay reported
            watch.event(round - 1, WindowEvent::Closed);
        }
        watch.event(round, WindowEvent::Title("again".to_string()));
        watch.event(round, WindowEvent::Done);
        made.extend(shown(watch.report()));
    }
    assert_eq!(made, vec![
        "100x50", "+w0/app-w0/title-w0", "+w1/app-w1/title-w1", "-w0",
        "101x50", "+w2/app-w2/title-w2", "-w1", "+w3/app-w3/title-w3", "-w2",
    ]);
}
