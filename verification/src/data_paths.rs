//! Where the player keeps its data: the song root folder chosen from the
//! environment, and the play-data file inside it.
use vstd::prelude::*;
use crate::text::{chars_of, push_all, string_of};

verus! {

/// `rel` appended to `base` as a path component, with `/` between them unless
/// `base` is empty or already ends in `/`.
pub open spec fn path_join(base: Seq<char>, rel: Seq<char>) -> Seq<char> {
    if base.len() == 0 || base.last() == '/' {
        base + rel
    } else {
        base + seq!['/'] + rel
    }
}

/// The song root folder for the values of `LOCALAPPDATA`, `XDG_DATA_HOME`
/// and `HOME` (`None` where a variable is unset): the first one set decides.
pub open spec fn song_root_folder_spec(
    local_app_data: Option<Seq<char>>,
    xdg_data_home: Option<Seq<char>>,
    home: Option<Seq<char>>,
) -> Seq<char> {
    match local_app_data {
        Some(l) => path_join(l, "murph9.TabPlayer"@),
        None => match xdg_data_home {
            Some(x) => path_join(x, "murph9.TabPlayer"@),
            None => match home {
                Some(h) => path_join(h, ".local/share/murph9.TabPlayer"@),
                None => "."@,
            },
        },
    }
}

pub open spec fn opt_view(v: Option<&str>) -> Option<Seq<char>> {
    match v {
        Some(s) => Some(s@),
        None => None,
    }
}

fn join(base: &str, rel: &str) -> (r: String)
    ensures
        r@ == path_join(base@, rel@),
{
    let mut out = chars_of(base);
    if out.len() > 0 && out[out.len() - 1] != '/' {
        out.push('/');
    }
    let ghost mid = out@;
    push_all(&mut out, &chars_of(rel));
    proof {
        if base@.len() == 0 || base@.last() == '/' {
            assert(mid == base@);
        } else {
            assert(mid == base@ + seq!['/']);
        }
        assert(out@ =~= path_join(base@, rel@));
    }
    string_of(&out)
}

/// The song root folder, given the environment variables that choose it.
pub fn song_root_folder(local_app_data: Option<&str>, xdg_data_home: Option<&str>, home: Option<&str>) -> (r: String)
    ensures
        r@ == song_root_folder_spec(opt_view(local_app_data), opt_view(xdg_data_home), opt_view(home)),
{
    match local_app_data {
        Some(l) => join(l, "murph9.TabPlayer"),
        None => match xdg_data_home {
            Some(x) => join(x, "murph9.TabPlayer"),
            None => match home {
                Some(h) => join(h, ".local/share/murph9.TabPlayer"),
                None => ".".to_owned(),
            },
        },
    }
}

/// The play-data file (`playData.json`) in the song root folder.
pub fn play_data_file(local_app_data: Option<&str>, xdg_data_home: Option<&str>, home: Option<&str>) -> (r: String)
    ensures
        r@ == path_join(
            song_root_folder_spec(opt_view(local_app_data), opt_view(xdg_data_home), opt_view(home)),
            "playData.json"@,
        ),
{
    let root = song_root_folder(local_app_data, xdg_data_home, home);
    join(root.as_str(), "playData.json")
}

} // verus!
