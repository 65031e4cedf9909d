//! Which files of a directory are processed, and in which order: the JPEGs
//! (`.jpg` / `.jpeg`, case-insensitive) in natural filename order.

use vstd::prelude::*;
use vstd::string::StrSliceExecFns;

verus! {

/// Index of the last '.' in `name`, if any.
pub open spec fn last_dot(name: Seq<char>) -> Option<int>
    decreases name.len(),
{
    if name.len() == 0 {
        None
    } else if name.last() == '.' {
        Some(name.len() - 1)
    } else {
        last_dot(name.drop_last())
    }
}

/// The extension of a file name, as `Path::extension` gives it: the text
/// after the last '.', unless there is no '.', the only '.' opens the name,
/// or the name is "..".
pub open spec fn extension(name: Seq<char>) -> Option<Seq<char>> {
    if name == seq!['.', '.'] {
        None
    } else {
        match last_dot(name) {
            None => None,
            Some(k) => if k == 0 {
                None
            } else {
                Some(name.skip(k + 1))
            },
        }
    }
}

/// ASCII lower case of a character; other characters are unchanged.
pub open spec fn ascii_lower(c: char) -> char {
    if 'A' <= c <= 'Z' {
        ((c as u8) + 32) as char
    } else {
        c
    }
}

/// The file name has the extension `jpg` or `jpeg`, in any ASCII case.
pub open spec fn is_jpeg_name_spec(name: Seq<char>) -> bool {
    match extension(name) {
        None => false,
        Some(e) => {
            let l = e.map_values(|c: char| ascii_lower(c));
            l == seq!['j', 'p', 'g'] || l == seq!['j', 'p', 'e', 'g']
        },
    }
}

/// The natural order of `natord::compare` between two strings: negative,
/// zero or positive.
pub uninterp spec fn natural_order(a: Seq<char>, b: Seq<char>) -> int;

/// `natord::compare`: compares two strings case-sensitively, skipping Unicode
/// white space and comparing runs of decimal digits by value. Its result
/// depends on the strings alone, and swapping them reverses it (the
/// comparison treats both sides alike).
#[verifier::external_body]
fn natord_compare(a: &str, b: &str) -> (r: i8)
    ensures
        r == natural_order(a@, b@),
        -1 <= r <= 1,
        natural_order(b@, a@) == -r,
{
    match natord::compare(a, b) {
        std::cmp::Ordering::Less => -1,
        std::cmp::Ordering::Equal => 0,
        std::cmp::Ordering::Greater => 1,
    }
}

/// Lower-cases an ASCII letter.
fn to_ascii_lower(c: char) -> (r: char)
    ensures
        r == ascii_lower(c),
{
    if 'A' <= c && c <= 'Z' {
        ((c as u8) + 32) as char
    } else {
        c
    }
}

/// Whether a file name has the extension `.jpg` or `.jpeg` (case-insensitive).
pub fn is_jpeg_name(name: &str) -> (r: bool)
    ensures
        r == is_jpeg_name_spec(name@),
{
    let n = name.unicode_len();
    if n == 2 && name.get_char(0) == '.' && name.get_char(1) == '.' {
        assert(name@ =~= seq!['.', '.']);
        return false;
    }
    assert(name@ != seq!['.', '.']) by {
        if n == 2 && name@ == seq!['.', '.'] {
            assert(name@[0] == '.' && name@[1] == '.');
        }
    }
    // find the last '.'
    let mut k: usize = n;
    assert(name@.take(n as int) =~= name@);
    while k > 0
        invariant
            0 <= k <= n,
            n == name@.len(),
            last_dot(name@) == last_dot(name@.take(k as int)),
        ensures
            0 <= k <= n,
            last_dot(name@) == last_dot(name@.take(k as int)),
            k > 0 ==> name@[k - 1] == '.',
        decreases k,
    {
        if name.get_char(k - 1) == '.' {
            break;
        }
        assert(name@.take(k as int).drop_last() =~= name@.take(k - 1));
        k = k - 1;
    }
    if k <= 1 {
        // no '.', or only a leading one
        proof {
            if k == 1 {
                assert(name@.take(1).last() == name@[0]);
            }
        }
        return false;
    }
    let dot = k - 1;
    assert(name@.take(k as int).last() == name@[dot as int]);
    assert(last_dot(name@) == Some(dot as int));
    let len = n - k;
    if len != 3 && len != 4 {
        assert(extension(name@) == Some(name@.skip(k as int)));
        assert(name@.skip(k as int).map_values(|c: char| ascii_lower(c)).len() == len);
        return false;
    }
    let mut lower: Vec<char> = Vec::new();
    let mut i: usize = k;
    while i < n
        invariant
            k <= i <= n,
            n == name@.len(),
            lower@ == name@.subrange(k as int, i as int).map_values(|c: char| ascii_lower(c)),
        decreases n - i,
    {
        let c = to_ascii_lower(name.get_char(i));
        lower.push(c);
        assert(name@.subrange(k as int, i + 1) =~= name@.subrange(k as int, i as int).push(
            name@[i as int],
        ));
        i = i + 1;
    }
    assert(name@.subrange(k as int, n as int) =~= name@.skip(k as int));
    let ghost l = name@.skip(k as int).map_values(|c: char| ascii_lower(c));
    let r = if len == 3 {
        lower[0] == 'j' && lower[1] == 'p' && lower[2] == 'g'
    } else {
        lower[0] == 'j' && lower[1] == 'p' && lower[2] == 'e' && lower[3] == 'g'
    };
    proof {
        if r {
            if len == 3 {
                assert(l =~= seq!['j', 'p', 'g']);
            } else {
                assert(l =~= seq!['j', 'p', 'e', 'g']);
            }
        } else {
            if l == seq!['j', 'p', 'g'] {
                assert(l[0] == 'j' && l[1] == 'p' && l[2] == 'g');
            }
            if l == seq!['j', 'p', 'e', 'g'] {
                assert(l[0] == 'j' && l[1] == 'p' && l[2] == 'e' && l[3] == 'g');
            }
        }
    }
    r
}

/// Adjacent entries of `order` are in natural order of their keys, and
/// entries with equal keys keep increasing indices.
pub open spec fn sorted_stably(order: Seq<usize>, keys: Seq<Seq<char>>) -> bool {
    forall|k: int|
        0 <= k < order.len() - 1 ==> natural_order(keys[#[trigger] order[k] as int], keys[order[k + 1] as int])
            <= 0 && (natural_order(keys[order[k] as int], keys[order[k + 1] as int]) == 0 ==> order[k]
            < order[k + 1])
}

/// Inserting a new, larger index at a point after every key not greater than
/// its own and before a key greater than its own keeps the order sorted.
proof fn lemma_insert_sorted(before: Seq<usize>, keys: Seq<Seq<char>>, j: int, i: usize)
    requires
        sorted_stably(before, keys),
        0 <= j <= before.len(),
        forall|k: int| 0 <= k < before.len() ==> #[trigger] before[k] < i,
        forall|m: int|
            j <= m < before.len() ==> natural_order(keys[i as int], keys[#[trigger] before[m] as int])
                == -1,
        j > 0 ==> natural_order(keys[before[j - 1] as int], keys[i as int]) <= 0,
    ensures
        sorted_stably(before.insert(j, i), keys),
{
    let out = before.insert(j, i);
    assert forall|k: int| 0 <= k < out.len() - 1 implies natural_order(
        keys[#[trigger] out[k] as int],
        keys[out[k + 1] as int],
    ) <= 0 && (natural_order(keys[out[k] as int], keys[out[k + 1] as int]) == 0 ==> out[k] < out[k
        + 1]) by {
        if k + 1 < j {
            assert(out[k] == before[k] && out[k + 1] == before[k + 1]);
        } else if k + 1 == j {
            assert(out[k] == before[k] && out[k + 1] == i);
        } else if k == j {
            assert(out[k] == i && out[k + 1] == before[k]);
        } else {
            assert(out[k] == before[k - 1] && out[k + 1] == before[k]);
        }
    }
}

/// Inserting an index larger than all present keeps the indices distinct and
/// adds exactly that index.
proof fn lemma_insert_fresh(before: Seq<usize>, j: int, i: usize)
    requires
        0 <= j <= before.len(),
        forall|k: int| 0 <= k < before.len() ==> #[trigger] before[k] < i,
        before.no_duplicates(),
    ensures
        before.insert(j, i).no_duplicates(),
        forall|m: usize|
            m <= i ==> (#[trigger] before.insert(j, i).contains(m) <==> (before.contains(m) || m
                == i)),
{
    let out = before.insert(j, i);
    assert forall|a: int, b: int| 0 <= a < b < out.len() implies out[a] != out[b] by {
        if a == j {
            assert(before[b - 1] < i);
        } else if b == j {
            assert(before[a] < i);
        } else {
            let a0 = if a < j { a } else { a - 1 };
            let b0 = if b < j { b } else { b - 1 };
            assert(out[a] == before[a0] && out[b] == before[b0]);
        }
    }
    assert forall|m: usize| m <= i implies (#[trigger] out.contains(m) <==> (before.contains(m)
        || m == i)) by {
        if before.contains(m) {
            let q = choose|q: int| 0 <= q < before.len() && before[q] == m;
            if q < j {
                assert(out[q] == before[q]);
            } else {
                assert(out[q + 1] == before[q]);
            }
        }
        if m == i {
            assert(out[j] == i);
        }
        if out.contains(m) {
            let q = choose|q: int| 0 <= q < out.len() && out[q] == m;
            if q < j {
                assert(before[q] == out[q]);
            } else if q > j {
                assert(before[q - 1] == out[q]);
            }
        }
    }
}

/// The indices of the JPEG file names among `names`, in natural order of the
/// names (`image_2.jpg` before `image_10.jpg`); names that compare equal keep
/// their relative order.
pub fn select_jpegs(names: &Vec<String>) -> (r: Vec<usize>)
    ensures
        r@.no_duplicates(),
        forall|i: int|
            0 <= i < names@.len() ==> (r@.contains(i as usize) <==> is_jpeg_name_spec(
                #[trigger] names@[i]@,
            )),
        forall|k: int| 0 <= k < r@.len() ==> #[trigger] r@[k] < names@.len(),
        sorted_stably(r@, names@.map_values(|s: String| s@)),
{
    let ghost keys = names@.map_values(|s: String| s@);
    let mut out: Vec<usize> = Vec::new();
    let mut i: usize = 0;
    while i < names.len()
        invariant
            0 <= i <= names@.len(),
            keys == names@.map_values(|s: String| s@),
            out@.no_duplicates(),
            forall|k: int| 0 <= k < out@.len() ==> #[trigger] out@[k] < i,
            forall|m: int|
                0 <= m < i ==> (out@.contains(m as usize) <==> is_jpeg_name_spec(
                    #[trigger] names@[m]@,
                )),
            sorted_stably(out@, keys),
        decreases names@.len() - i,
    {
        let name = names[i].as_str();
        assert(keys[i as int] == name@);
        if is_jpeg_name(name) {
            // find the insertion point: after every name not greater than this one
            let mut j: usize = out.len();
            while j > 0
                invariant
                    0 <= j <= out@.len(),
                    keys == names@.map_values(|s: String| s@),
                    name@ == keys[i as int],
                    forall|k: int| 0 <= k < out@.len() ==> #[trigger] out@[k] < i,
                    i < names@.len(),
                    forall|m: int|
                        j <= m < out@.len() ==> natural_order(keys[i as int], keys[#[trigger] out@[m] as int])
                            == -1,
                ensures
                    0 <= j <= out@.len(),
                    forall|m: int|
                        j <= m < out@.len() ==> natural_order(keys[i as int], keys[#[trigger] out@[m] as int])
                            == -1,
                    j > 0 ==> natural_order(keys[out@[j - 1] as int], keys[i as int]) <= 0,
                decreases j,
            {
                let other = names[out[j - 1]].as_str();
                assert(other@ == keys[out@[j - 1] as int]);
                let c = natord_compare(name, other);
                if c >= 0 {
                    break;
                }
                j = j - 1;
            }
            let ghost before = out@;
            proof {
                lemma_insert_sorted(before, keys, j as int, i);
                lemma_insert_fresh(before, j as int, i);
            }
            out.insert(j, i);
            assert forall|m: int| 0 <= m < i + 1 implies (out@.contains(m as usize)
                <==> is_jpeg_name_spec(#[trigger] names@[m]@)) by {
                assert(before.insert(j as int, i).contains(m as usize) <==> (before.contains(
                    m as usize,
                ) || m as usize == i));
            }
        } else {
            assert forall|m: int| 0 <= m < i + 1 implies (out@.contains(m as usize)
                <==> is_jpeg_name_spec(#[trigger] names@[m]@)) by {
                if m == i && out@.contains(m as usize) {
                    let q = choose|q: int| 0 <= q < out@.len() && out@[q] == m as usize;
                }
            }
        }
        i = i + 1;
    }
    out
}

} // verus!
