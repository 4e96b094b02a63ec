//! What the environment says of the configuration.

use vstd::prelude::*;
use crate::text::{chars_of, part_of, split, split_on, text_of, texts};

verus! {

/// A text in lower case.
pub uninterp spec fn lowercased(text: Seq<char>) -> Seq<char>;

/// A character in lower case, where it is an ASCII letter.
pub open spec fn ascii_lower(c: char) -> char {
    if 'A' <= c <= 'Z' {
        (c as u32 + 32) as char
    } else {
        c
    }
}

/// A character in upper case, where it is an ASCII letter.
pub open spec fn ascii_upper(c: char) -> char {
    if 'a' <= c <= 'z' {
        (c as u32 - 32) as char
    } else {
        c
    }
}

/// Whether a text is ASCII.
pub open spec fn all_ascii(text: Seq<char>) -> bool {
    forall|i: int| 0 <= i < text.len() ==> (#[trigger] text[i]) as u32 <= 127
}

/// Turns a text to lower case with `str::to_lowercase`. The result is named; of ASCII text it has
/// each letter in lower case and all else as it is.
#[verifier::external_body]
fn to_lower(text: &str) -> (r: String)
    ensures
        r@ == lowercased(text@),
        all_ascii(text@) ==> r@ == Seq::new(text@.len(), |i: int| ascii_lower(text@[i])),
{
    text.to_lowercase()
}

/// The parts of a key in one: the first in lower case, and each other with an upper case letter at
/// its start.
pub open spec fn camel_case(parts: Seq<Seq<char>>) -> Seq<char>
    decreases parts.len(),
{
    if parts.len() == 0 {
        Seq::empty()
    } else if parts.len() == 1 {
        lowercased(parts[0])
    } else {
        camel_case(parts.drop_last()) + seq![ascii_upper(parts.last()[0])] + lowercased(
            parts.last().drop_first(),
        )
    }
}

/// Whether each part of a key but the first starts with an ASCII character.
pub open spec fn parts_start_ascii(key: Seq<char>) -> bool {
    forall|i: int|
        1 <= i < split_on(key, '_').len() ==> (#[trigger] split_on(key, '_')[i]).len() > 0
            && split_on(key, '_')[i][0] as u32 <= 127
}

/// The key of the configuration that a variable of the environment sets: its parts between
/// underscores in one, each but the first with an upper case letter at its start.
pub fn map_env(key: &str) -> (r: String)
    requires
        parts_start_ascii(key@),
    ensures
        r@ == camel_case(split_on(key@, '_')),
{
    let chars = chars_of(key);
    let parts = split(chars.as_slice(), '_');
    let ghost all = split_on(key@, '_');
    let mut out = String::new();
    let mut i: usize = 0;
    assert(all.take(0) =~= Seq::empty());
    while i < parts.len()
        invariant
            i <= parts.len(),
            all == texts(parts@),
            all == split_on(key@, '_'),
            parts_start_ascii(key@),
            out@ == camel_case(all.take(i as int)),
        decreases parts.len() - i,
    {
        assert(all.take(i + 1).drop_last() =~= all.take(i as int));
        assert(all.take(i + 1).last() == all[i as int]);
        assert(all[i as int] == parts@[i as int]@);
        if i == 0 {
            out = to_lower(parts[i].as_str());
            assert(all.take(1)[0] == all[0]);
        } else {
            let part = chars_of(parts[i].as_str());
            let first: char = part[0];
            let upper: char = if 'a' <= first && first <= 'z' {
                ((first as u8) - 32) as char
            } else {
                first
            };
            out.push(upper);
            let rest = part_of(part.as_slice(), 1, part.len());
            assert(rest@ =~= all[i as int].drop_first());
            let lower = to_lower(text_of(rest.as_slice()).as_str());
            out.append(lower.as_str());
            assert(out@ =~= camel_case(all.take(i + 1)));
        }
        i += 1;
    }
    assert(all.take(i as int) =~= all);
    out
}

/// Whether each part of a key but the first starts with an ASCII character.
pub fn mappable(key: &str) -> (r: bool)
    ensures
        r == parts_start_ascii(key@),
{
    let chars = chars_of(key);
    let parts = split(chars.as_slice(), '_');
    let ghost all = split_on(key@, '_');
    let mut i: usize = 1;
    while i < parts.len()
        invariant
            1 <= i,
            all == texts(parts@),
            all == split_on(key@, '_'),
            forall|j: int|
                1 <= j < i && j < all.len() ==> (#[trigger] all[j]).len() > 0 && all[j][0] as u32
                    <= 127,
        decreases parts.len() - i,
    {
        let part = chars_of(parts[i].as_str());
        assert(all[i as int] == part@);
        if part.len() == 0 || part[0] as u32 > 127 {
            return false;
        }
        i += 1;
    }
    true
}

/// The configuration file: the one that is given, else the one that the environment names, else
/// the one by the usual name.
pub fn config_file(arg: Option<&str>, env: Option<String>) -> (r: String)
    ensures
        r@ == match arg {
            Some(path) => path@,
            None => match env {
                Some(path) => path@,
                None => "config.yaml"@,
            },
        },
{
    match arg {
        Some(path) => path.to_owned(),
        None => match env {
            Some(path) => path,
            None => "config.yaml".to_owned(),
        },
    }
}

/// The key that a variable of the environment sets is made of its parts between underscores: the first
/// in lower case, then each other with its first letter in upper case and the rest in lower case.
pub proof fn law_keys_are_put_together(parts: Seq<Seq<char>>)
    requires
        parts.len() > 0,
    ensures
        camel_case(parts) == lowercased(parts[0]) + parts.skip(1).map_values(
            |part: Seq<char>|
                seq![
                    if 'a' <= part[0] <= 'z' {
                        (part[0] as u32 - 32) as char
                    } else {
                        part[0]
                    },
                ] + lowercased(part.skip(1)),
        ).flatten(),
    decreases parts.len(),
{
    let raised = |part: Seq<char>|
        seq![
            if 'a' <= part[0] <= 'z' {
                (part[0] as u32 - 32) as char
            } else {
                part[0]
            },
        ] + lowercased(part.skip(1));
    if parts.len() == 1 {
        assert(parts.skip(1).map_values(raised).len() == 0);
        assert(camel_case(parts) =~= lowercased(parts[0]) + parts.skip(1).map_values(
            raised,
        ).flatten());
    } else {
        let front = parts.drop_last();
        let last = parts.last();
        law_keys_are_put_together(front);
        let before = front.skip(1).map_values(raised);
        assert(parts.skip(1).map_values(raised) =~= before.push(raised(last)));
        before.lemma_flatten_push(raised(last));
        assert(last.drop_first() =~= last.skip(1));
        assert(raised(last) == seq![ascii_upper(last[0])] + lowercased(last.drop_first()));
        assert(camel_case(parts) =~= lowercased(parts[0]) + (before.flatten() + raised(last)));
    }
}

} // verus!
