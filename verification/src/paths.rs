//! The files and directories of a run. Paths are Unix paths.

use vstd::prelude::*;

verus! {

/// A path with another one put behind it. A path that starts at the root takes
/// the place of the first; otherwise one separator stands between the two.
pub open spec fn joined(path: Seq<char>, part: Seq<char>) -> Seq<char> {
    if part.len() > 0 && part[0] == '/' {
        part
    } else if path.len() == 0 || path.last() == '/' {
        path + part
    } else {
        path + "/"@ + part
    }
}

/// Where the configuration of a container is kept.
pub open spec fn config_dir(name: Seq<char>) -> Seq<char> {
    "configs/"@ + name
}

/// Where the data of a repository or a container is kept.
pub open spec fn data_dir(name: Seq<char>) -> Seq<char> {
    "./data/"@ + name
}

/// The private key for cloning, or with an extension a file beside it, in a
/// home directory.
pub open spec fn key_path(home: Seq<char>, extension: Option<Seq<char>>) -> Seq<char> {
    let key = joined(joined(home, ".ssh"@), "id_ed25519"@);
    match extension {
        Some(text) if text.len() > 0 => key + "."@ + text,
        _ => key,
    }
}

/// Puts one path behind another.
pub fn join(path: &str, part: &str) -> (whole: String)
    ensures
        whole@ == joined(path@, part@),
{
    if !part.is_empty() && part.get_char(0) == '/' {
        return part.to_owned();
    }
    let mut whole = path.to_owned();
    if !path.is_empty() && path.get_char(path.unicode_len() - 1) != '/' {
        whole.append("/");
    }
    whole.append(part);
    whole
}

/// Where the configuration of a container is kept.
pub fn get_config_dir(name: &str) -> (path: String)
    ensures
        path@ == config_dir(name@),
{
    "configs/".to_owned().concat(name)
}

/// Where the data of a repository or a container is kept.
pub fn get_data_dir(name: &str) -> (path: String)
    ensures
        path@ == data_dir(name@),
{
    "./data/".to_owned().concat(name)
}

/// The private key for cloning in a home directory, or, with an extension, a
/// file beside it. An extension holds no separator.
pub fn get_key_path(home: &str, extension: Option<&str>) -> (path: String)
    requires
        extension matches Some(text) ==> !text@.contains('/'),
    ensures
        path@ == key_path(
            home@,
            match extension {
                Some(text) => Some(text@),
                None => None,
            },
        ),
{
    let mut path = join(join(home, ".ssh").as_str(), "id_ed25519");
    if let Some(text) = extension {
        if !text.is_empty() {
            path.append(".");
            path.append(text);
        }
    }
    path
}

/// The two files of the key for cloning.
#[derive(Debug, PartialEq)]
pub struct KeyPair {
    pub public: String,
    pub private: String,
}

impl KeyPair {
    /// The key in a home directory.
    pub fn in_home(home: &str) -> (pair: KeyPair)
        ensures
            pair.public@ == key_path(home@, Some("pub"@)),
            pair.private@ == key_path(home@, None),
    {
        proof {
            reveal_strlit("pub");
        }
        KeyPair { public: get_key_path(home, Some("pub")), private: get_key_path(home, None) }
    }
}

/// The key in a home directory is found from that directory under the path
/// that it has from an unnamed one.
pub proof fn law_key_path_is_relative(home: Seq<char>, extension: Option<Seq<char>>)
    ensures
        key_path(home, extension) == joined(home, key_path(Seq::empty(), extension)),
{
    reveal_strlit(".ssh");
    reveal_strlit("id_ed25519");
    reveal_strlit("/");
    reveal_strlit(".");
    let none = Seq::<char>::empty();
    assert(joined(none, ".ssh"@) =~= ".ssh"@);
    let inner = key_path(none, extension);
    assert(inner[0] == '.');
    assert(key_path(home, extension) =~= joined(home, inner));
}

/// A path that is put behind another one is the end of what comes out. From
/// the root it stands alone; otherwise the other path stands before it, parted
/// from it by one separator, unless that path is empty or ends with one.
pub proof fn law_joined(path: Seq<char>, part: Seq<char>)
    ensures
        ({
            let whole = joined(path, part);
            let head = whole.take(whole.len() - part.len());
            &&& whole.len() >= part.len()
            &&& whole.skip(whole.len() - part.len()) == part
            &&& part.len() > 0 && part[0] == '/' ==> head.len() == 0
            &&& part.len() == 0 || part[0] != '/' ==> {
                &&& path.len() == 0 || path.last() == '/' ==> head == path
                &&& path.len() > 0 && path.last() != '/' ==> head == path.push('/')
            }
        }),
{
    reveal_strlit("/");
    let whole = joined(path, part);
    let head = whole.take(whole.len() - part.len());
    assert(whole.skip(whole.len() - part.len()) =~= part);
    if part.len() == 0 || part[0] != '/' {
        if path.len() == 0 || path.last() == '/' {
            assert(head =~= path);
        } else {
            assert(head =~= path.push('/'));
        }
    }
}

/// The directories of a name are two fixed ones with that name, whole, behind
/// them.
pub proof fn law_directories(name: Seq<char>)
    ensures
        config_dir(name).len() == 8 + name.len(),
        config_dir(name).take(8) == "configs/"@,
        config_dir(name).skip(8) == name,
        data_dir(name).len() == 7 + name.len(),
        data_dir(name).take(7) == "./data/"@,
        data_dir(name).skip(7) == name,
{
    reveal_strlit("configs/");
    reveal_strlit("./data/");
    assert(config_dir(name).take(8) =~= "configs/"@);
    assert(config_dir(name).skip(8) =~= name);
    assert(data_dir(name).take(7) =~= "./data/"@);
    assert(data_dir(name).skip(7) =~= name);
}

/// In any home directory the key is found in `.ssh`, and a file beside it
/// differs by its extension alone, of which an empty one is none. Whether the
/// home directory is named with a separator at its end makes no difference.
pub proof fn law_key_files(home: Seq<char>, extension: Seq<char>)
    ensures
        key_path(home, None) == joined(home, ".ssh/id_ed25519"@),
        home.len() > 0 && home.last() != '/' ==> {
            &&& key_path(home, None) == home + "/.ssh/id_ed25519"@
            &&& key_path(home.push('/'), None) == key_path(home, None)
        },
        home.len() == 0 || home.last() == '/' ==> key_path(home, None) == home
            + ".ssh/id_ed25519"@,
        key_path(home, Some(Seq::empty())) == key_path(home, None),
        extension.len() > 0 ==> key_path(home, Some(extension)) == key_path(home, None).push('.')
            + extension,
{
    reveal_strlit("/");
    reveal_strlit(".");
    reveal_strlit(".ssh");
    reveal_strlit("id_ed25519");
    reveal_strlit("/.ssh/id_ed25519");
    reveal_strlit(".ssh/id_ed25519");
    let none: Option<Seq<char>> = None;
    assert(key_path(home, none) =~= joined(home, ".ssh/id_ed25519"@));
    if home.len() > 0 && home.last() != '/' {
        assert(key_path(home, none) =~= home + "/.ssh/id_ed25519"@);
        assert(key_path(home.push('/'), none) =~= home + "/.ssh/id_ed25519"@);
    } else {
        assert(key_path(home, none) =~= home + ".ssh/id_ed25519"@);
    }
    if extension.len() > 0 {
        assert(key_path(home, Some(extension)) =~= key_path(home, none).push('.') + extension);
    }
}

} // verus!
