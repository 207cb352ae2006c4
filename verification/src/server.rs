//! The place of the socket that the plugin listens on.

use vstd::prelude::*;
use vstd::string::StringExecFns;

verus! {

/// The directory in which the container engine looks for plugin sockets.
pub open spec fn server_path() -> Seq<char> {
    "/run/docker/plugins"@
}

/// The place of `fpath` below `base`: `fpath` itself where it is absolute,
/// else `base`, a separator and `fpath`. `base` does not end in a separator.
pub open spec fn joined(base: Seq<char>, fpath: Seq<char>) -> Seq<char> {
    if fpath.len() > 0 && fpath[0] == '/' {
        fpath
    } else {
        base + seq!['/'] + fpath
    }
}

/// The Unix socket that the plugin listens on. Binding it is done outside
/// this library.
pub struct UnixServer {
    path: String,
}

impl View for UnixServer {
    type V = Seq<char>;

    closed spec fn view(&self) -> Seq<char> {
        self.path@
    }
}

impl UnixServer {
    /// A server on the socket at `path`.
    pub fn new(path: String) -> (res: Self)
        ensures
            res@ == path@,
    {
        UnixServer { path }
    }

    /// A server on the socket named `fpath` in the plugin directory of the
    /// container engine.
    pub fn from_fpath(fpath: String) -> (res: Self)
        ensures
            res@ == joined(server_path(), fpath@),
    {
        let absolute = fpath.as_str().unicode_len() > 0 && fpath.as_str().get_char(0) == '/';
        if absolute {
            UnixServer { path: fpath }
        } else {
            proof {
                reveal_strlit("/");
            }
            let path = "/run/docker/plugins".to_owned().concat("/").concat(fpath.as_str());
            assert(path@ =~= joined(server_path(), fpath@));
            UnixServer { path }
        }
    }

    /// The path of the socket.
    pub fn path(&self) -> (res: &str)
        ensures
            res@ == self@,
    {
        self.path.as_str()
    }
}

} // verus!
