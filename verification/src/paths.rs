//! Output file naming: derive the path of a generated form image from
//! the input path and a form label.
//!
//! For an input `dir/stem.ext` and label `negative`, the output is
//! `dir/stem.negative.png`: the directory part is kept, the final
//! extension is dropped (a name whose only dot leads it keeps it, as a
//! hidden file), and the label and the `png` extension are appended.

use vstd::prelude::*;
use vstd::string::StrSliceExecFns;
use vstd::string::StringExecFns;

verus! {

/// Index of the last occurrence of `c` in `s`, or -1 when `s` does not
/// hold `c`.
pub open spec fn last_index_of(s: Seq<char>, c: char) -> int
    decreases s.len(),
{
    if s.len() == 0 {
        -1
    } else if s.last() == c {
        s.len() - 1
    } else {
        last_index_of(s.drop_last(), c)
    }
}

/// A position bearing `c` with none after it is the last occurrence.
proof fn lemma_last_index_at(s: Seq<char>, c: char, k: int)
    requires
        0 <= k < s.len(),
        s[k] == c,
        forall|j: int| k < j < s.len() ==> s[j] != c,
    ensures
        last_index_of(s, c) == k,
    decreases s.len(),
{
    if s.last() == c {
        assert(k == s.len() - 1);
    } else {
        assert(k < s.len() - 1);
        lemma_last_index_at(s.drop_last(), c, k);
    }
}

/// A string without `c` has no last occurrence.
proof fn lemma_last_index_none(s: Seq<char>, c: char)
    requires
        forall|j: int| 0 <= j < s.len() ==> s[j] != c,
    ensures
        last_index_of(s, c) == -1,
    decreases s.len(),
{
    if s.len() > 0 {
        lemma_last_index_none(s.drop_last(), c);
    }
}

/// The derived output path: directory part kept, the final extension of
/// the file name dropped, the form label and the `png` extension
/// appended. `None` when the input has no file name.
pub open spec fn output_path_spec(p: Seq<char>, form: Seq<char>) -> Option<Seq<char>> {
    let k = last_index_of(p, '/');
    let name = p.subrange(k + 1, p.len() as int);
    if name.len() == 0 {
        Option::None
    } else {
        let d = last_index_of(name, '.');
        let stem = if d <= 0 {
            name
        } else {
            name.subrange(0, d)
        };
        Option::Some(
            p.subrange(0, k + 1) + stem + seq!['.'] + form + seq!['.', 'p', 'n', 'g'],
        )
    }
}

/// Index just past the last occurrence of `c` in `s`: 0 when `s` does
/// not hold `c`.
fn find_suffix_start(s: &str, c: char) -> (k1: usize)
    ensures
        k1 as int == last_index_of(s@, c) + 1,
        k1 <= s@.len(),
{
    let n = s.unicode_len();
    let mut i: usize = n;
    while i > 0
        invariant
            i <= n,
            n == s@.len(),
            forall|j: int| i <= j < n ==> s@[j] != c,
        decreases i,
    {
        if s.get_char(i - 1) == c {
            proof {
                lemma_last_index_at(s@, c, i - 1);
            }
            return i;
        }
        i = i - 1;
    }
    proof {
        lemma_last_index_none(s@, c);
    }
    0
}

/// Path of the output image for `input_path` and the given form label:
/// the input's directory and stem with `.{form_type}.png` appended, or
/// `None` for an input without a file name.
pub fn output_path(input_path: &str, form_type: &str) -> (r: Option<String>)
    ensures
        match r {
            Option::None => output_path_spec(input_path@, form_type@) is None,
            Option::Some(out) => output_path_spec(input_path@, form_type@) == Option::Some(out@),
        },
{
    let n = input_path.unicode_len();
    let k1 = find_suffix_start(input_path, '/');
    if k1 == n {
        proof {
            assert(input_path@.subrange(k1 as int, n as int).len() == 0);
        }
        return Option::None;
    }
    let name = input_path.substring_char(k1, n);
    let m = name.unicode_len();
    let d1 = find_suffix_start(name, '.');
    let stem_end: usize = if d1 > 1 {
        d1 - 1
    } else {
        m
    };
    let mut out = String::new();
    out.append(input_path.substring_char(0, k1));
    out.append(name.substring_char(0, stem_end));
    out.append(".");
    out.append(form_type);
    out.append(".png");
    proof {
        reveal_strlit(".");
        reveal_strlit(".png");
        assert("."@ =~= seq!['.']);
        assert(".png"@ =~= seq!['.', 'p', 'n', 'g']);
        let p = input_path@;
        let k = last_index_of(p, '/');
        let sname = p.subrange(k + 1, p.len() as int);
        assert(name@ =~= sname);
        let d = last_index_of(sname, '.');
        let stem = if d <= 0 {
            sname
        } else {
            sname.subrange(0, d)
        };
        assert(name@.subrange(0, stem_end as int) =~= stem);
        assert(out@ =~= p.subrange(0, k + 1) + stem + seq!['.'] + form_type@ + seq![
            '.',
            'p',
            'n',
            'g',
        ]);
    }
    Option::Some(out)
}

} // verus!
