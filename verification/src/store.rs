//! The computational core of the variable-store operations: bounds
//! checking, slice extraction and write planning over a variable's raw
//! bytes, and trimming an image path down to its base name.  The
//! unverified driver performs the platform calls and hands the resulting
//! buffers here.

use vstd::prelude::*;
use crate::data::UefiValue;
use crate::text;

verus! {

/// Reads `length` bytes at `offset` from a variable's content; the range
/// must lie within the content.
pub fn read_slice(content: &Vec<u8>, offset: usize, length: usize) -> (r: Option<UefiValue>)
    ensures
        match r {
            Some(v) => offset + length <= content@.len() && v@ == content@.subrange(
                offset as int,
                offset + length,
            ),
            None => offset + length > content@.len(),
        },
{
    if offset > content.len() || length > content.len() - offset {
        return None;
    }
    let mut bytes: Vec<u8> = Vec::new();
    let mut i: usize = 0;
    while i < length
        invariant
            i <= length,
            offset + length <= content@.len(),
            offset + length <= usize::MAX,
            bytes@ =~= content@.subrange(offset as int, offset + i),
        decreases length - i,
    {
        bytes.push(content[offset + i]);
        proof {
            assert(bytes@ =~= content@.subrange(offset as int, offset + i + 1));
        }
        i = i + 1;
    }
    Some(UefiValue(bytes))
}

/// Plans a write of `value` over the range of `length` bytes at `offset`:
/// when the range already holds the value and no write is forced, the
/// content is returned unchanged and nothing is to be written; otherwise
/// the new content is returned and a write is to be performed.  The range
/// must lie within the content, and the value must be of the range's
/// length.
pub fn apply_write(
    content: Vec<u8>,
    offset: usize,
    length: usize,
    value: &UefiValue,
    force: bool,
) -> (r: Option<(Vec<u8>, bool)>)
    requires
        value@.len() == length,
    ensures
        match r {
            Some(p) => offset + length <= content@.len() && {
                let same = content@.subrange(offset as int, offset + length) == value@;
                if !force && same {
                    p.0@ == content@ && p.1 == false
                } else {
                    p.0@ == content@.take(offset as int) + value@ + content@.skip(
                        offset + length,
                    ) && p.1 == true
                }
            },
            None => offset + length > content@.len(),
        },
{
    if offset > content.len() || length > content.len() - offset {
        return None;
    }
    // Compare the addressed range with the new value.
    let mut same = true;
    let mut i: usize = 0;
    while i < length
        invariant
            i <= length,
            offset + length <= content@.len(),
            offset + length <= usize::MAX,
            value@.len() == length,
            same == (content@.subrange(offset as int, offset + i) =~= value@.take(i as int)),
        decreases length - i,
    {
        proof {
            assert(content@.subrange(offset as int, offset + i + 1).drop_last()
                =~= content@.subrange(offset as int, offset + i));
            assert(value@.take(i + 1).drop_last() =~= value@.take(i as int));
        }
        if content[offset + i] != value.0[i] {
            proof {
                assert(content@.subrange(offset as int, offset + i + 1)[i as int]
                    != value@.take(i + 1)[i as int]);
            }
            same = false;
        }
        proof {
            if same {
                assert(content@.subrange(offset as int, offset + i + 1) =~= content@.subrange(
                    offset as int,
                    offset + i,
                ).push(content@[offset + i]));
                assert(value@.take(i + 1) =~= value@.take(i as int).push(value@[i as int]));
            }
        }
        i = i + 1;
    }
    proof {
        assert(content@.subrange(offset as int, offset + length) =~= content@.subrange(
            offset as int,
            offset + length,
        ));
        assert(value@.take(length as int) =~= value@);
    }
    if !force && same {
        return Some((content, false));
    }
    // Copy the new value over the addressed range.
    let mut content = content;
    let ghost pre = content@;
    let mut i: usize = 0;
    while i < length
        invariant
            i <= length,
            offset + length <= pre.len(),
            offset + length <= usize::MAX,
            value@.len() == length,
            content@.len() == pre.len(),
            content@ =~= pre.take(offset as int) + value@.take(i as int) + pre.skip(
                offset + i,
            ),
        decreases length - i,
    {
        content.set(offset + i, value.0[i]);
        proof {
            assert(content@ =~= pre.take(offset as int) + value@.take(i + 1) + pre.skip(
                offset + i + 1,
            ));
        }
        i = i + 1;
    }
    proof {
        assert(value@.take(length as int) =~= value@);
        assert(content@ =~= pre.take(offset as int) + value@ + pre.skip(offset + length));
    }
    Some((content, true))
}

/// The base name within an image path: what stands after the last path
/// separator and before the last extension separator, as the usage text
/// shows it.
pub open spec fn image_base_name_spec(path: Seq<char>) -> Seq<char> {
    let start = match text::find_last_spec(path, '\\') {
        Some(i) => if i == 0 {
            0
        } else {
            i + 1
        },
        None => 0,
    };
    let end = match text::find_last_spec(path, '.') {
        Some(i) => if i == 0 {
            0
        } else {
            i - 1
        },
        None => path.len() - 1,
    };
    if start <= end {
        path.subrange(start, end + 1)
    } else {
        Seq::empty()
    }
}

/// Trims an image path down to its base name.
pub fn image_base_name(path: &Vec<char>) -> (r: Vec<char>)
    requires
        path@.len() > 0,
    ensures
        r@ == image_base_name_spec(path@),
{
    let n = path.len();
    let start: usize = match text::find_last(path, '\\') {
        Some(i) => {
            proof {
                text::lemma_find_last_spec(path@, '\\');
            }
            if i == 0 {
                0
            } else {
                i + 1
            }
        },
        None => 0,
    };
    let end: usize = match text::find_last(path, '.') {
        Some(i) => {
            proof {
                text::lemma_find_last_spec(path@, '.');
            }
            if i == 0 {
                0
            } else {
                i - 1
            }
        },
        None => path.len() - 1,
    };
    if start <= end {
        let r = text::copy_range(path, start, end + 1);
        proof {
            assert(r@ =~= path@.subrange(start as int, end + 1));
        }
        r
    } else {
        Vec::new()
    }
}

} // verus!
