//! Where a stored file lives: a file name inside a folder of the user's home
//! directory. Reading and writing the file is left to the caller.

use vstd::prelude::*;

verus! {

/// The folder used when none is given.
pub const DEFAULT_FOLDER: &'static str = ".tomato";

/// Relies on `home::home_dir`: the user's home directory, where it can be
/// found and is valid Unicode. What it returns depends on the environment.
#[verifier::external_body]
fn home_directory() -> (r: Option<String>) {
    match home::home_dir() {
        Some(p) => p.into_os_string().into_string().ok(),
        None => None,
    }
}

/// The path of a file `path` in the folder `folder` of the home directory `home`.
pub open spec fn file_path(home: Seq<char>, folder: Seq<char>, path: Seq<char>) -> Seq<char> {
    home + "/"@ + folder + "/"@ + path
}

/// The path of the folder `folder` of the home directory `home`.
pub open spec fn folder_path(home: Seq<char>, folder: Seq<char>) -> Seq<char> {
    home + "/"@ + folder
}

/// Binds a file name to its path under the home directory.
#[derive(Debug, Clone, PartialEq)]
pub struct Storage {
    storage_file: String,
    folder: String,
    folder_path: String,
}

impl Storage {
    /// The full path of the stored file.
    pub closed spec fn file_view(&self) -> Seq<char> {
        self.storage_file@
    }

    /// The folder name, relative to the home directory.
    pub closed spec fn folder_view(&self) -> Seq<char> {
        self.folder@
    }

    /// The full path of the folder.
    pub closed spec fn folder_path_view(&self) -> Seq<char> {
        self.folder_path@
    }

    /// A storage handle for the file `path` in `folder` (or the default
    /// folder) of the home directory `home`.
    pub fn with_home(home: &str, folder: Option<String>, path: String) -> (r: Storage)
        ensures
            r.folder_view() == (match folder {
                Some(f) => f@,
                None => DEFAULT_FOLDER@,
            }),
            r.file_view() == file_path(home@, r.folder_view(), path@),
            r.folder_path_view() == folder_path(home@, r.folder_view()),
    {
        let folder = match folder {
            Some(f) => f,
            None => DEFAULT_FOLDER.to_owned(),
        };
        let mut dir = home.to_owned();
        dir.append("/");
        dir.append(folder.as_str());
        let mut file = home.to_owned();
        file.append("/");
        file.append(folder.as_str());
        file.append("/");
        file.append(path.as_str());
        Storage { storage_file: file, folder, folder_path: dir }
    }

    /// A storage handle for the file `path` in `folder` (or the default
    /// folder) of the user's home directory; `None` where the home directory
    /// cannot be found.
    pub fn new(folder: Option<String>, path: String) -> (r: Option<Storage>)
        ensures
            r matches Some(s) ==> s.folder_view() == (match folder {
                Some(f) => f@,
                None => DEFAULT_FOLDER@,
            }) && exists|home: Seq<char>|
                s.file_view() == file_path(home, s.folder_view(), path@) && s.folder_path_view()
                    == folder_path(home, s.folder_view()),
    {
        match home_directory() {
            Some(home) => Some(Storage::with_home(home.as_str(), folder, path)),
            None => None,
        }
    }

    /// The full path of the stored file.
    pub fn storage_file(&self) -> (r: &str)
        ensures
            r@ == self.file_view(),
    {
        self.storage_file.as_str()
    }

    /// The folder name, relative to the home directory.
    pub fn folder(&self) -> (r: &str)
        ensures
            r@ == self.folder_view(),
    {
        self.folder.as_str()
    }

    /// The full path of the folder, which a write creates where it is missing.
    pub fn folder_path(&self) -> (r: &str)
        ensures
            r@ == self.folder_path_view(),
    {
        self.folder_path.as_str()
    }
}

} // verus!
