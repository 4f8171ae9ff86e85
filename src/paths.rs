use vstd::prelude::*;

use crate::chars::{chars_of, push_char};
use crate::dispatch::lower_char;

verus! {

/// An ASCII letter, small or capital.
pub open spec fn is_ascii_letter(c: char) -> bool {
    ('A' <= c <= 'Z') || ('a' <= c <= 'z')
}

/// A path written with a drive letter and the given separator after the
/// colon, as in `D:\` or `D:/`.
pub open spec fn has_drive(p: Seq<char>, sep: char) -> bool {
    p.len() >= 3 && is_ascii_letter(p[0]) && p[1] == ':' && p[2] == sep
}

/// `s` with every backslash turned into a slash.
pub open spec fn forward_slashes(s: Seq<char>) -> Seq<char> {
    s.map_values(|c: char| if c == '\\' { '/' } else { c })
}

/// A Windows path as the same place under `/mnt/<drive>/` (the drive letter
/// made small, backslashes made slashes); any other path unchanged.
pub open spec fn wsl_path(p: Seq<char>) -> Seq<char> {
    if has_drive(p, '\\') {
        "/mnt/"@ + seq![lower_char(p[0])] + "/"@ + forward_slashes(p.subrange(3, p.len() as int))
    } else if has_drive(p, '/') {
        "/mnt/"@ + seq![lower_char(p[0])] + "/"@ + p.subrange(3, p.len() as int)
    } else {
        p
    }
}

/// Converts a Windows path (`D:\dir\file` or `D:/dir/file`) to the path of
/// the same place under `/mnt/` (`/mnt/d/dir/file`); returns any other path
/// as it is.
pub fn normalize_path(path: &str) -> (r: String)
    ensures
        r@ == wsl_path(path@),
{
    let cs = chars_of(path);
    let n = cs.len();
    if n >= 3 && (('A' <= cs[0] && cs[0] <= 'Z') || ('a' <= cs[0] && cs[0] <= 'z')) && cs[1]
        == ':' && (cs[2] == '\\' || cs[2] == '/') {
        let backslashed = cs[2] == '\\';
        let drive = if 'A' <= cs[0] && cs[0] <= 'Z' {
            ((cs[0] as u8) + 32) as char
        } else {
            cs[0]
        };
        let mut r = String::from_str("/mnt/");
        push_char(&mut r, drive);
        push_char(&mut r, '/');
        let ghost head = r@;
        let ghost rest = cs@.subrange(3, n as int);
        let mut i: usize = 3;
        while i < n
            invariant
                3 <= i <= n == cs@.len(),
                rest == cs@.subrange(3, n as int),
                r@ == head + (if backslashed {
                    forward_slashes(cs@.subrange(3, i as int))
                } else {
                    cs@.subrange(3, i as int)
                }),
            decreases n - i,
        {
            let c = cs[i];
            if backslashed && c == '\\' {
                push_char(&mut r, '/');
            } else {
                push_char(&mut r, c);
            }
            assert(cs@.subrange(3, i + 1) =~= cs@.subrange(3, i as int).push(c));
            assert(forward_slashes(cs@.subrange(3, i + 1)) =~= forward_slashes(
                cs@.subrange(3, i as int),
            ).push(if c == '\\' {
                '/'
            } else {
                c
            }));
            i = i + 1;
        }
        assert(head =~= "/mnt/"@ + seq![lower_char(path@[0])] + "/"@) by {
            reveal_strlit("/mnt/");
            reveal_strlit("/");
        }
        r
    } else {
        String::from_str(path)
    }
}

} // verus!
