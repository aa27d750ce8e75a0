//! Path-string conventions of the durable save file.

use vstd::prelude::*;
use vstd::string::{StrSliceExecFns, StringExecFns};

verus! {

/// The index just past the last `/` of a path, or 0 when it has none:
/// where the file name starts.
pub open spec fn spec_name_start(s: Seq<char>) -> int
    decreases s.len(),
{
    if s.len() == 0 {
        0
    } else if s.last() == '/' {
        s.len() as int
    } else {
        spec_name_start(s.drop_last())
    }
}

/// The save-file path that belongs to a combat file: the file name gains
/// a leading `.` and a trailing `.bkp`, the directory part is kept.
pub open spec fn spec_save_file_path(s: Seq<char>) -> Seq<char> {
    let cut = spec_name_start(s);
    s.subrange(0, cut) + "."@ + s.subrange(cut, s.len() as int) + ".bkp"@
}

/// Where the file name starts in a path string.
fn name_start(path: &String) -> (r: usize)
    ensures
        r as int == spec_name_start(path@),
        r <= path@.len(),
{
    let n = path.as_str().unicode_len();
    let mut i: usize = n;
    proof {
        assert(path@.subrange(0, n as int) =~= path@);
    }
    while i > 0
        invariant
            n == path@.len(),
            0 <= i <= n,
            spec_name_start(path@) == spec_name_start(path@.subrange(0, i as int)),
        decreases i,
    {
        proof {
            assert(path@.subrange(0, i as int).last() == path@[i - 1]);
            assert(path@.subrange(0, i as int).drop_last() =~= path@.subrange(0, i - 1));
        }
        if path.as_str().get_char(i - 1) == '/' {
            proof {
                assert(spec_name_start(path@.subrange(0, i as int)) == i as int);
            }
            return i;
        }
        i -= 1;
    }
    proof {
        assert(path@.subrange(0, 0) =~= Seq::<char>::empty());
    }
    0
}

/// The save-file path that belongs to a combat file.
pub fn save_file_path(combat_file: &String) -> (r: String)
    ensures
        r@ == spec_save_file_path(combat_file@),
{
    let cut = name_start(combat_file);
    let n = combat_file.as_str().unicode_len();
    let mut r = String::new();
    let dir = combat_file.as_str().substring_char(0, cut);
    r.append(dir);
    r.append(".");
    let name = combat_file.as_str().substring_char(cut, n);
    r.append(name);
    r.append(".bkp");
    r
}

/// The save-file path of the combat file when the caller has found that
/// the save file exists on disk, and nothing otherwise.  The existence
/// test itself is the caller's: this library never touches the file
/// system.
pub fn check_for_save_file(combat_file: &String, save_file_exists: bool) -> (r: Option<String>)
    ensures
        match r {
            Option::Some(p) => save_file_exists && p@ == spec_save_file_path(combat_file@),
            Option::None => !save_file_exists,
        },
{
    if save_file_exists {
        Some(save_file_path(combat_file))
    } else {
        None
    }
}

/// The index just past the last `.` of a file name, or 0 when it has
/// none: where the extension starts.
pub open spec fn spec_ext_start(s: Seq<char>) -> int
    decreases s.len(),
{
    if s.len() == 0 {
        0
    } else if s.last() == '.' {
        s.len() as int
    } else {
        spec_ext_start(s.drop_last())
    }
}

/// A lower-cased ASCII character.
pub open spec fn spec_ascii_lower(c: char) -> char {
    if 'A' <= c <= 'Z' {
        ((c as u8) + 32) as char
    } else {
        c
    }
}

/// A sequence of lower-cased ASCII characters.
pub open spec fn spec_ascii_lower_seq(s: Seq<char>) -> Seq<char> {
    s.map_values(|c: char| spec_ascii_lower(c))
}

/// The extension of a path, per the file-name conventions: the part of
/// the file name after its last `.`, provided that dot is neither the
/// file name's first character nor missing.
pub open spec fn spec_extension(s: Seq<char>) -> Option<Seq<char>> {
    let name = s.subrange(spec_name_start(s), s.len() as int);
    let cut = spec_ext_start(name);
    if cut <= 1 {
        Option::<Seq<char>>::None
    } else {
        Option::Some(name.subrange(cut, name.len() as int))
    }
}

/// Whether the file carries a `.yaml` or `.yml` extension, compared
/// without regard to ASCII case.  A file without an extension is an
/// error; the message names the file.
pub fn validate_yaml_extension(file: &String) -> (r: Result<bool, String>)
    ensures
        r is Ok <==> spec_extension(file@) is Some,
        r is Ok ==> r.unwrap() == {
            let ext = spec_ascii_lower_seq(spec_extension(file@).unwrap());
            ext == "yaml"@ || ext == "yml"@
        },
{
    let n = file.as_str().unicode_len();
    let cut = name_start(file);
    let name = file.as_str().substring_char(cut, n);
    let name_len = name.unicode_len();
    let ghost nm = file@.subrange(cut as int, n as int);
    let mut i: usize = name_len;
    proof {
        assert(nm.subrange(0, name_len as int) =~= nm);
    }
    while i > 0
        invariant
            name@ == nm,
            name_len == nm.len(),
            0 <= i <= name_len,
            spec_ext_start(nm) == spec_ext_start(nm.subrange(0, i as int)),
        ensures
            0 <= i <= name_len,
            spec_ext_start(nm) == i as int,
        decreases i,
    {
        proof {
            assert(nm.subrange(0, i as int).last() == nm[i - 1]);
            assert(nm.subrange(0, i as int).drop_last() =~= nm.subrange(0, i - 1));
        }
        if name.get_char(i - 1) == '.' {
            proof {
                assert(spec_ext_start(nm.subrange(0, i as int)) == i as int);
            }
            break ;
        }
        i -= 1;
        proof {
            if i == 0 {
                assert(nm.subrange(0, 0) =~= Seq::<char>::empty());
            }
        }
    }
    let ext_cut = i;
    if ext_cut <= 1 {
        let mut msg = String::new();
        msg.append("The file '");
        msg.append(file.as_str());
        msg.append("' must have a .yaml or .yml extension.");
        return Err(msg);
    }
    let ext = name.substring_char(ext_cut, name_len);
    proof {
        reveal_strlit("yaml");
        reveal_strlit("yml");
        assert(ext@ == spec_extension(file@).unwrap());
    }
    let is_yaml = ext_matches_lower(ext, "yaml");
    let is_yml = ext_matches_lower(ext, "yml");
    Ok(is_yaml || is_yml)
}

/// Whether the string, lower-cased in ASCII, equals the given pattern,
/// which must itself hold no ASCII capitals.
fn ext_matches_lower(ext: &str, lower: &str) -> (r: bool)
    requires
        forall|k: int| 0 <= k < lower@.len() ==> !('A' <= #[trigger] lower@[k] <= 'Z'),
    ensures
        r == (spec_ascii_lower_seq(ext@) == lower@),
{
    let ne = ext.unicode_len();
    let nl = lower.unicode_len();
    if ne != nl {
        proof {
            assert(spec_ascii_lower_seq(ext@).len() == ext@.len());
        }
        return false;
    }
    let mut i: usize = 0;
    while i < ne
        invariant
            ne == ext@.len() == lower@.len(),
            0 <= i <= ne,
            forall|k: int| 0 <= k < lower@.len() ==> !('A' <= #[trigger] lower@[k] <= 'Z'),
            forall|k: int| 0 <= k < i ==> spec_ascii_lower(#[trigger] ext@[k]) == lower@[k],
        decreases ne - i,
    {
        let c = ext.get_char(i);
        let e = lower.get_char(i);
        let up: char = if 'a' <= e && e <= 'z' {
            ((e as u8) - 32) as char
        } else {
            e
        };
        if !(c == e || c == up) {
            proof {
                assert(spec_ascii_lower(ext@[i as int]) != lower@[i as int]);
                assert(spec_ascii_lower_seq(ext@)[i as int] != lower@[i as int]);
            }
            return false;
        }
        proof {
            assert(spec_ascii_lower(ext@[i as int]) == lower@[i as int]);
        }
        i += 1;
    }
    proof {
        assert(spec_ascii_lower_seq(ext@) =~= lower@);
    }
    true
}

} // verus!
