//! The private backend: objects named by their BLAKE3 digest, deflated and
//! encrypted before they are written.

pub mod commit;
pub mod crypto;
pub mod diff;
pub mod index;
pub mod merge;
pub mod objects;
pub mod pack;
pub mod refs;

use crate::errors::StoreError;
use crate::files::FileTree;
use crate::native_git::refs::head_name;
use crate::native_git::repository::initial_head;
use crate::text::has_substring;
use crate::text::option_text;
use vstd::prelude::*;
use vstd::string::*;
use vstd::utf8::*;

verus! {

/// The settings of a private repository.
#[derive(Debug, Clone)]
pub struct TriConfig {
    pub version: u32,
    pub encryption_enabled: bool,
    pub compression_enabled: bool,
    pub remote_url: Option<String>,
    pub user_id: Option<String>,
}

impl Default for TriConfig {
    /// The settings of a new repository: version 1, encrypted and deflated, no remote, no user.
    fn default() -> (config: TriConfig)
        ensures
            config.version == 1,
            config.encryption_enabled,
            config.compression_enabled,
            config.remote_url is None,
            config.user_id is None,
    {
        TriConfig {
            version: 1,
            encryption_enabled: true,
            compression_enabled: true,
            remote_url: None,
            user_id: None,
        }
    }
}

/// The name of the file that keeps the settings.
pub open spec fn config_name() -> Seq<char> {
    "config.toml"@
}

/// The directory `.tri` of a new repository whose settings are written as `config_text`.
pub open spec fn initial_files(config_text: Seq<char>) -> Map<Seq<char>, Seq<u8>> {
    Map::<Seq<char>, Seq<u8>>::empty().insert(config_name(), encode_utf8(config_text)).insert(
        head_name(),
        encode_utf8(initial_head()),
    )
}

/// The line that keeps the directory `.tri` out of a surrounding Git repository.
pub open spec fn ignore_pattern() -> Seq<char> {
    ".tri/"@
}

/// What is appended to a list of ignored paths that lacks the pattern.
pub open spec fn ignore_lines() -> Seq<char> {
    "# TriForge private repository\n.tri/\n"@
}

/// The list of ignored paths with the pattern added, or `None` where the
/// list holds the pattern already. A list that does not end in a line feed
/// is given one first.
pub open spec fn ignore_list_with_tri(current: Seq<char>) -> Option<Seq<char>> {
    if has_substring(current, ignore_pattern()) {
        None
    } else if current.len() > 0 && current.last() != '\n' {
        Some(current + seq!['\n'] + ignore_lines())
    } else {
        Some(current + ignore_lines())
    }
}

/// The list of ignored paths that the working directory needs, given the
/// one it has (the empty text where it has none), or `None` where nothing
/// is to be written.
pub fn gitignore_with_tri(current: &str) -> (updated: Option<String>)
    ensures
        option_text(updated) == ignore_list_with_tri(current@),
{
    if crate::text::str_contains(current, ".tri/") {
        return None;
    }
    proof {
        reveal_strlit("\n");
    }
    let mut text = current.to_string();
    let n = current.unicode_len();
    if n > 0 && current.get_char(n - 1) != '\n' {
        text.append("\n");
    }
    text.append("# TriForge private repository\n.tri/\n");
    Some(text)
}

/// A private repository held in memory: what its directory `.tri` holds, and its settings.
pub struct TriRepository {
    path: FileTree,
    config: TriConfig,
}

impl TriRepository {
    /// The directory `.tri`.
    pub closed spec fn files(self) -> FileTree {
        self.path
    }

    /// The settings.
    pub closed spec fn settings(self) -> TriConfig {
        self.config
    }

    /// The directory `.tri` is well formed.
    pub open spec fn wf(self) -> bool {
        self.files().wf()
    }

    /// The directory `.tri` as a map from path to contents.
    pub open spec fn view(self) -> Map<Seq<char>, Seq<u8>> {
        self.files()@
    }

    /// Makes a private repository. `tri_dir` is what the directory `.tri`
    /// holds, or `None` where there is none; a directory that is there
    /// already is `AlreadyExists`. `config_text` is the default settings as
    /// they are to be written.
    pub fn init(tri_dir: Option<FileTree>, config_text: &str) -> (repo: Result<
        TriRepository,
        StoreError,
    >)
        ensures
            match repo {
                Ok(r) => tri_dir is None && r.wf() && r@ == initial_files(config_text@)
                    && r.settings().version == 1 && r.settings().encryption_enabled
                    && r.settings().compression_enabled && r.settings().remote_url is None
                    && r.settings().user_id is None,
                Err(e) => tri_dir is Some && e == StoreError::AlreadyExists,
            },
    {
        if tri_dir.is_some() {
            return Err(StoreError::AlreadyExists);
        }
        proof {
            reveal_strlit("HEAD");
        }
        assert("HEAD"@ =~= head_name());
        let mut path = FileTree::new();
        path.write("config.toml", config_text.as_bytes_vec());
        path.write("HEAD", "ref: refs/heads/main\n".as_bytes_vec());
        Ok(TriRepository { path, config: TriConfig::default() })
    }

    /// Opens a private repository. `tri_dir` is what the directory `.tri`
    /// holds, or `None` where there is none; `config` is what its file of
    /// settings was read as. A directory that is missing, or that has no
    /// file of settings, is `NotFound`.
    pub fn open(tri_dir: Option<FileTree>, config: TriConfig) -> (repo: Result<
        TriRepository,
        StoreError,
    >)
        requires
            tri_dir matches Some(dir) ==> dir.wf(),
        ensures
            match repo {
                Ok(r) => tri_dir == Some(r.files()) && r.wf() && r.settings() == config
                    && r@.dom().contains(config_name()),
                Err(e) => e == StoreError::NotFound && (tri_dir matches Some(dir)
                    ==> !dir@.dom().contains(config_name())),
            },
    {
        match tri_dir {
            Some(path) => {
                if !path.has_file("config.toml") {
                    return Err(StoreError::NotFound);
                }
                Ok(TriRepository { path, config })
            },
            None => Err(StoreError::NotFound),
        }
    }

    /// The directory `.tri`.
    pub fn path(&self) -> (dir: &FileTree)
        ensures
            *dir == self.files(),
    {
        &self.path
    }

    /// The directory `.tri`, to write into.
    pub fn path_mut(&mut self) -> (dir: &mut FileTree)
        ensures
            *dir == old(self).files(),
            *final(dir) == final(self).files(),
            final(self).settings() == old(self).settings(),
    {
        &mut self.path
    }

    /// Gives the directory `.tri` back, to be written to disk.
    pub fn into_path(self) -> (dir: FileTree)
        ensures
            dir == self.files(),
    {
        self.path
    }

    /// The settings.
    pub fn config(&self) -> (config: &TriConfig)
        ensures
            *config == self.settings(),
    {
        &self.config
    }

    /// Replaces the settings by `config` and writes them, as `config_text`, to their file.
    pub fn update_config(&mut self, config: TriConfig, config_text: &str) -> (done: Result<
        (),
        StoreError,
    >)
        requires
            old(self).wf(),
        ensures
            done is Ok,
            final(self).wf(),
            final(self).settings() == config,
            final(self)@ == old(self)@.insert(config_name(), encode_utf8(config_text@)),
    {
        self.config = config;
        self.path.write("config.toml", config_text.as_bytes_vec());
        Ok(())
    }

    /// The name of the directory, below `.tri`, that keeps the objects.
    pub fn objects_dir(&self) -> (name: String)
        ensures
            name@ == "objects"@,
    {
        "objects".to_string()
    }

    /// The name of the directory, below `.tri`, that keeps the references.
    pub fn refs_dir(&self) -> (name: String)
        ensures
            name@ == "refs"@,
    {
        "refs".to_string()
    }

    /// Whether the repository's objects are encrypted.
    pub fn is_encrypted(&self) -> (encrypted: bool)
        ensures
            encrypted == self.settings().encryption_enabled,
    {
        self.config.encryption_enabled
    }
}

} // verus!
