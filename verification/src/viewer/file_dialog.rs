//! What the file dialog of the viewer decides: what it was opened for, what
//! a picked file is used for, and when it is done.

use vstd::prelude::*;

verus! {

/// What the file dialog was opened for.
#[derive(Debug, Clone, Copy, PartialEq, Eq, Structural)]
pub enum FileMode {
    Replace,
    Merge,
    Save,
    Load,
    /// Not open.
    Idle,
}

/// What to do with a picked file.
#[derive(Debug, Clone, Copy, PartialEq, Eq, Structural)]
pub enum FileAction {
    /// Nothing to do.
    Nothing,
    /// Read a graph from the file and show it in place of the session.
    ParseAndReplace,
    /// Read a graph from the file and merge it into the session.
    ParseAndMerge,
    /// Save the session to the file.
    SaveSession,
    /// Load a saved session from the file.
    LoadSession,
}

/// The state of the file dialog: what it is open for.
#[derive(Debug)]
pub struct FileDialogHandler {
    mode: FileMode,
}

/// What a file picked (or not) does, given what the dialog is open for and
/// whether a session is loaded.
pub open spec fn action_for(mode: FileMode, picked: bool, session_loaded: bool) -> FileAction {
    if !picked {
        FileAction::Nothing
    } else {
        match mode {
            FileMode::Idle => FileAction::Nothing,
            FileMode::Replace => FileAction::ParseAndReplace,
            FileMode::Merge => if session_loaded {
                FileAction::ParseAndMerge
            } else {
                FileAction::ParseAndReplace
            },
            FileMode::Save => if session_loaded {
                FileAction::SaveSession
            } else {
                FileAction::Nothing
            },
            FileMode::Load => FileAction::LoadSession,
        }
    }
}

impl FileDialogHandler {
    /// What the dialog is open for.
    pub closed spec fn mode_of(&self) -> FileMode {
        self.mode
    }

    /// A dialog that is not open.
    pub fn new() -> (r: Self)
        ensures
            r.mode_of() == FileMode::Idle,
    {
        Self { mode: FileMode::Idle }
    }

    /// What the dialog is open for.
    pub fn mode(&self) -> (r: FileMode)
        ensures
            r == self.mode_of(),
    {
        self.mode
    }

    pub fn open_for_replace(&mut self)
        ensures
            final(self).mode_of() == FileMode::Replace,
    {
        self.mode = FileMode::Replace;
    }

    pub fn open_for_merge(&mut self)
        ensures
            final(self).mode_of() == FileMode::Merge,
    {
        self.mode = FileMode::Merge;
    }

    pub fn open_for_save(&mut self)
        ensures
            final(self).mode_of() == FileMode::Save,
    {
        self.mode = FileMode::Save;
    }

    pub fn open_for_load(&mut self)
        ensures
            final(self).mode_of() == FileMode::Load,
    {
        self.mode = FileMode::Load;
    }

    /// What to do once the dialog was shown: nothing while it is not open or
    /// no file was picked; a graph read from the file replaces the session,
    /// or is merged into it when it is open for merging and a session is
    /// loaded; the session is saved when it is open for saving and one is
    /// loaded; a saved session is loaded.
    pub fn handle(&self, picked: bool, session_loaded: bool) -> (r: FileAction)
        ensures
            r == action_for(self.mode_of(), picked, session_loaded),
    {
        if !picked {
            return FileAction::Nothing;
        }
        match self.mode {
            FileMode::Idle => FileAction::Nothing,
            FileMode::Replace => FileAction::ParseAndReplace,
            FileMode::Merge => if session_loaded {
                FileAction::ParseAndMerge
            } else {
                FileAction::ParseAndReplace
            },
            FileMode::Save => if session_loaded {
                FileAction::SaveSession
            } else {
                FileAction::Nothing
            },
            FileMode::Load => FileAction::LoadSession,
        }
    }

    /// After the action for a picked file ran: the dialog closes when it
    /// succeeded, and stays open for the same purpose when it failed or no
    /// file was picked.
    pub fn finish(&mut self, picked: bool, succeeded: bool)
        ensures
            final(self).mode_of() == if picked && succeeded {
                FileMode::Idle
            } else {
                old(self).mode_of()
            },
    {
        if picked && succeeded {
            self.mode = FileMode::Idle;
        }
    }
}

} // verus!
