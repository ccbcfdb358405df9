use strata::error::{Error, ErrorKind};
use strata::session::{can_run, Command, LoadPathOptions, Message, SavePathOptions, Session, State};

#[test]
fn paths_are_edited_in_setup() {
    let mut s = Session::new("in".to_string(), "out.jpg".to_string());
    assert!(matches!(s.update(Message::LoadPathChanged("photos".to_string())), Command::Nothing));
    assert!(matches!(s.update(Message::SavePathChanged("pano.jpg".to_string())), Command::Nothing));
    assert_eq!(s.load_path, "photos");
    assert_eq!(s.save_path, "pano.jpg");
    assert!(matches!(s.state, State::Setup));
}

#[test]
fn run_finish_restart_and_exit() {
    let mut s = Session::new("in".to_string(), "out.jpg".to_string());
    match s.update(Message::Run) {
        Command::Run { load, save } => {
            assert_eq!(load, "in");
            assert_eq!(save, "out.jpg");
        },
        _ => panic!("expected a run"),
    }
    assert!(matches!(s.state, State::Running));
    s.update(Message::Finish(Err(Error::new("disk full".to_string()))));
    match &s.state {
        State::Finished(Err(e)) => {
            assert_eq!(e.kind, ErrorKind::External);
            assert_eq!(e.to_string(), "disk full");
        },
        _ => panic!("expected a failed run"),
    }
    s.update(Message::Restart);
    assert!(matches!(s.state, State::Setup));
    s.update(Message::Finish(Ok(())));
    assert!(matches!(s.state, State::Finished(Ok(()))));
    assert!(matches!(s.update(Message::Exit), Command::Exit));
}

#[test]
fn load_path_judgement() {
    assert_eq!(LoadPathOptions::check(true, true), LoadPathOptions::Accepted);
    assert_eq!(LoadPathOptions::check(false, true), LoadPathOptions::NoDir);
    assert_eq!(LoadPathOptions::check(false, false), LoadPathOptions::NotFound);
}

#[test]
fn save_path_judgement() {
    let jpg = || Some("jpg".to_string());
    assert_eq!(SavePathOptions::check(false, Some(true), jpg()), SavePathOptions::Accepted);
    assert_eq!(SavePathOptions::check(true, Some(true), jpg()), SavePathOptions::AlreadyExists);
    assert_eq!(SavePathOptions::check(false, Some(false), jpg()), SavePathOptions::NotFound);
    assert_eq!(SavePathOptions::check(false, None, jpg()), SavePathOptions::NotFound);
    assert_eq!(SavePathOptions::check(false, Some(true), Some("png".to_string())), SavePathOptions::InvalidExtension);
    assert_eq!(SavePathOptions::check(false, Some(true), None), SavePathOptions::InvalidExtension);
}

#[test]
fn run_needs_both_paths() {
    assert!(can_run(LoadPathOptions::Accepted, SavePathOptions::Accepted));
    assert!(!can_run(LoadPathOptions::NoDir, SavePathOptions::Accepted));
    assert!(!can_run(LoadPathOptions::Accepted, SavePathOptions::AlreadyExists));
}
