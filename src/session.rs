//! The decisions of the interactive front end: which paths may be used, and
//! how the session moves between setup, running and finished.

use vstd::prelude::*;
use crate::error::Error;

verus! {

/// What the user or the running pipeline reports.
#[derive(Debug)]
pub enum Message {
    LoadPathChanged(String),
    SavePathChanged(String),
    Run,
    Finish(Result<(), Error>),
    Restart,
    Exit,
}

/// The phase of a session.
pub enum State {
    Setup,
    Running,
    Finished(Result<(), Error>),
}

/// What the front end must do after an update.
pub enum Command {
    Nothing,
    /// Run the pipeline from the images under `load` to the file `save`.
    Run { load: String, save: String },
    /// End the program.
    Exit,
}

/// A session: its phase and the two chosen paths.
pub struct Session {
    pub state: State,
    pub load_path: String,
    pub save_path: String,
}

impl Session {
    /// A session in setup with the given paths.
    pub fn new(load_path: String, save_path: String) -> (r: Session)
        ensures
            r.state is Setup,
            r.load_path@ == load_path@,
            r.save_path@ == save_path@,
    {
        Session { state: State::Setup, load_path, save_path }
    }

    /// Applies one message and says what to do next.
    pub fn update(&mut self, message: Message) -> (r: Command)
        ensures
            match message {
                Message::LoadPathChanged(p) => final(self).load_path@ == p@ && final(self).save_path@
                    == old(self).save_path@ && final(self).state == old(self).state && r is Nothing,
                Message::SavePathChanged(p) => final(self).save_path@ == p@ && final(self).load_path@
                    == old(self).load_path@ && final(self).state == old(self).state && r is Nothing,
                Message::Run => final(self).state is Running && final(self).load_path@ == old(self).load_path@
                    && final(self).save_path@ == old(self).save_path@ && (r matches Command::Run { load, save }
                    && load@ == old(self).load_path@ && save@ == old(self).save_path@),
                Message::Finish(res) => final(self).state == State::Finished(res) && final(self).load_path@
                    == old(self).load_path@ && final(self).save_path@ == old(self).save_path@ && r is Nothing,
                Message::Restart => final(self).state is Setup && final(self).load_path@ == old(self).load_path@
                    && final(self).save_path@ == old(self).save_path@ && r is Nothing,
                Message::Exit => final(self).state == old(self).state && final(self).load_path@
                    == old(self).load_path@ && final(self).save_path@ == old(self).save_path@ && r is Exit,
            },
    {
        match message {
            Message::LoadPathChanged(p) => {
                self.load_path = p;
                Command::Nothing
            },
            Message::SavePathChanged(p) => {
                self.save_path = p;
                Command::Nothing
            },
            Message::Run => {
                self.state = State::Running;
                Command::Run { load: self.load_path.clone(), save: self.save_path.clone() }
            },
            Message::Finish(res) => {
                self.state = State::Finished(res);
                Command::Nothing
            },
            Message::Restart => {
                self.state = State::Setup;
                Command::Nothing
            },
            Message::Exit => Command::Exit,
        }
    }
}

/// Whether a path can serve as the directory of input images.
#[derive(Clone, Copy, Debug, PartialEq, Eq, Structural)]
pub enum LoadPathOptions {
    Accepted,
    NotFound,
    NoDir,
}

impl LoadPathOptions {
    /// Judges a path from what the file system says of it.
    pub fn check(is_dir: bool, exists: bool) -> (r: LoadPathOptions)
        ensures
            r == (if is_dir {
                LoadPathOptions::Accepted
            } else if exists {
                LoadPathOptions::NoDir
            } else {
                LoadPathOptions::NotFound
            }),
    {
        if is_dir {
            LoadPathOptions::Accepted
        } else if exists {
            LoadPathOptions::NoDir
        } else {
            LoadPathOptions::NotFound
        }
    }
}

/// Whether a path can receive the output image.
#[derive(Clone, Copy, Debug, PartialEq, Eq, Structural)]
pub enum SavePathOptions {
    Accepted,
    InvalidExtension,
    NotFound,
    AlreadyExists,
}

impl SavePathOptions {
    /// Judges a path from what the file system says of it: whether it is an
    /// existing file, whether its parent (if it has one) is a directory, and
    /// its extension (if it has one). Only a new `jpg` file in an existing
    /// directory is accepted.
    pub fn check(is_file: bool, parent_is_dir: Option<bool>, extension: Option<String>) -> (r: SavePathOptions)
        ensures
            r == (if is_file {
                SavePathOptions::AlreadyExists
            } else if parent_is_dir != Some(true) {
                SavePathOptions::NotFound
            } else if extension matches Some(e) && e@ == "jpg"@ {
                SavePathOptions::Accepted
            } else {
                SavePathOptions::InvalidExtension
            }),
    {
        proof {
            reveal_strlit("jpg");
        }
        if is_file {
            SavePathOptions::AlreadyExists
        } else {
            match parent_is_dir {
                Some(true) => match extension {
                    Some(e) => {
                        let jpg = "jpg".to_owned();
                        if e == jpg {
                            SavePathOptions::Accepted
                        } else {
                            SavePathOptions::InvalidExtension
                        }
                    },
                    None => SavePathOptions::InvalidExtension,
                },
                _ => SavePathOptions::NotFound,
            }
        }
    }
}

/// The pipeline may be started only when both paths are acceptable.
pub fn can_run(load: LoadPathOptions, save: SavePathOptions) -> (r: bool)
    ensures
        r == (load == LoadPathOptions::Accepted && save == SavePathOptions::Accepted),
{
    load == LoadPathOptions::Accepted && save == SavePathOptions::Accepted
}

} // verus!
