//! Output ordering: rows sorted by `(path_id, channel_name)`, the
//! channel name compared lexicographically by character code. The
//! sort is a stable insertion sort, so the output sequence is a
//! function of the input sequence alone.

use vstd::prelude::*;
use crate::types::HtlcInstruction;
use crate::types::HtlcInstructionModel;

verus! {

/// Lexicographic order on character sequences, by character code.
pub open spec fn chars_le(a: Seq<char>, b: Seq<char>) -> bool
    decreases a.len(),
{
    if a.len() == 0 {
        true
    } else if b.len() == 0 {
        false
    } else if a[0] != b[0] {
        (a[0] as u32) < (b[0] as u32)
    } else {
        chars_le(a.drop_first(), b.drop_first())
    }
}

/// The output order: `path_id` ascending, then `channel_name`
/// lexicographically ascending.
pub open spec fn instr_le(a: HtlcInstructionModel, b: HtlcInstructionModel) -> bool {
    a.path_id < b.path_id || (a.path_id == b.path_id && chars_le(a.channel_name, b.channel_name))
}

/// Any two character sequences compare in at least one direction.
pub proof fn lemma_chars_le_total(a: Seq<char>, b: Seq<char>)
    ensures
        chars_le(a, b) || chars_le(b, a),
    decreases a.len(),
{
    if a.len() > 0 && b.len() > 0 {
        if a[0] == b[0] {
            lemma_chars_le_total(a.drop_first(), b.drop_first());
        } else {
            vstd::utf8::char_u32_cast(a[0], a[0] as u32);
            vstd::utf8::char_u32_cast(b[0], b[0] as u32);
        }
    }
}

/// Any two rows compare in at least one direction.
pub proof fn lemma_instr_le_total(a: HtlcInstructionModel, b: HtlcInstructionModel)
    ensures
        instr_le(a, b) || instr_le(b, a),
{
    lemma_chars_le_total(a.channel_name, b.channel_name);
}

/// The order on character sequences is reflexive.
pub proof fn lemma_chars_le_refl(a: Seq<char>)
    ensures
        chars_le(a, a),
    decreases a.len(),
{
    if a.len() > 0 {
        lemma_chars_le_refl(a.drop_first());
    }
}

/// The order on character sequences is transitive.
pub proof fn lemma_chars_le_trans(a: Seq<char>, b: Seq<char>, c: Seq<char>)
    requires
        chars_le(a, b),
        chars_le(b, c),
    ensures
        chars_le(a, c),
    decreases a.len(),
{
    if a.len() > 0 {
        assert(b.len() > 0);
        assert(c.len() > 0);
        if a[0] == b[0] && b[0] == c[0] {
            lemma_chars_le_trans(a.drop_first(), b.drop_first(), c.drop_first());
        } else {
            assert((a[0] as u32) < (c[0] as u32));
            assert(a[0] != c[0]);
        }
    }
}

/// The output order is transitive.
pub proof fn lemma_instr_le_trans(
    a: HtlcInstructionModel,
    b: HtlcInstructionModel,
    c: HtlcInstructionModel,
)
    requires
        instr_le(a, b),
        instr_le(b, c),
    ensures
        instr_le(a, c),
{
    if a.path_id == b.path_id && b.path_id == c.path_id {
        lemma_chars_le_trans(a.channel_name, b.channel_name, c.channel_name);
    }
}

/// A sequence whose adjacent rows are in order has every pair of rows
/// in order.
pub proof fn lemma_sorted_le_pairs(s: Seq<HtlcInstructionModel>, i: int, j: int)
    requires
        sorted_le(s),
        0 <= i <= j < s.len(),
    ensures
        instr_le(s[i], s[j]),
    decreases j - i,
{
    if i == j {
        lemma_chars_le_refl(s[i].channel_name);
    } else {
        lemma_sorted_le_pairs(s, i, j - 1);
        assert(instr_le(s[j - 1], s[j]));
        lemma_instr_le_trans(s[i], s[j - 1], s[j]);
    }
}

/// If two sequences agree on their first `i` characters, comparing
/// them is comparing what remains.
proof fn lemma_chars_le_skip(a: Seq<char>, b: Seq<char>, i: int)
    requires
        0 <= i <= a.len(),
        i <= b.len(),
        a.subrange(0, i) == b.subrange(0, i),
    ensures
        chars_le(a, b) == chars_le(a.skip(i), b.skip(i)),
    decreases i,
{
    if i > 0 {
        assert(a.subrange(0, i)[0] == a[0]);
        assert(b.subrange(0, i)[0] == b[0]);
        assert(a.drop_first().subrange(0, i - 1) =~= b.drop_first().subrange(0, i - 1)) by {
            assert forall|j: int| 0 <= j < i - 1 implies #[trigger] a.drop_first().subrange(
                0,
                i - 1,
            )[j] == b.drop_first().subrange(0, i - 1)[j] by {
                assert(a.drop_first().subrange(0, i - 1)[j] == a[j + 1]);
                assert(b.drop_first().subrange(0, i - 1)[j] == b[j + 1]);
                assert(a.subrange(0, i)[j + 1] == a[j + 1]);
                assert(b.subrange(0, i)[j + 1] == b[j + 1]);
                assert(a.subrange(0, i)[j + 1] == b.subrange(0, i)[j + 1]);
            }
        }
        lemma_chars_le_skip(a.drop_first(), b.drop_first(), i - 1);
        assert(a.drop_first().skip(i - 1) =~= a.skip(i));
        assert(b.drop_first().skip(i - 1) =~= b.skip(i));
        assert(a.len() > 0 && b.len() > 0 && a[0] == b[0]);
    } else {
        assert(a.skip(0) =~= a);
        assert(b.skip(0) =~= b);
    }
}

/// Compares two strings lexicographically by character code.
fn str_le(a: &str, b: &str) -> (r: bool)
    ensures
        r == chars_le(a@, b@),
{
    let a_len = a.unicode_len();
    let b_len = b.unicode_len();
    let mut i: usize = 0;
    while i < a_len && i < b_len
        invariant
            i <= a_len,
            i <= b_len,
            a_len == a@.len(),
            b_len == b@.len(),
            a@.subrange(0, i as int) == b@.subrange(0, i as int),
        decreases a_len - i,
    {
        let ca = a.get_char(i);
        let cb = b.get_char(i);
        if ca != cb {
            proof {
                lemma_chars_le_skip(a@, b@, i as int);
                assert(a@.skip(i as int)[0] == ca);
                assert(b@.skip(i as int)[0] == cb);
            }
            return (ca as u32) < (cb as u32);
        }
        proof {
            assert(a@.subrange(0, i + 1) =~= b@.subrange(0, i + 1));
        }
        i = i + 1;
    }
    proof {
        lemma_chars_le_skip(a@, b@, i as int);
        if i == a_len {
            assert(a@.skip(i as int).len() == 0);
        } else {
            assert(b@.skip(i as int).len() == 0);
            assert(a@.skip(i as int).len() > 0);
        }
    }
    a_len <= b_len
}

/// Compares two output rows in the output order.
fn instr_le_exec(a: &HtlcInstruction, b: &HtlcInstruction) -> (r: bool)
    ensures
        r == instr_le(a@, b@),
{
    if a.path_id < b.path_id {
        true
    } else if a.path_id == b.path_id {
        str_le(a.channel_name.as_str(), b.channel_name.as_str())
    } else {
        false
    }
}

/// `x` placed into `s` after every element that compares at or below
/// it; on a sorted `s` this keeps equal keys in arrival order.
pub open spec fn insert_model(x: HtlcInstructionModel, s: Seq<HtlcInstructionModel>) -> Seq<
    HtlcInstructionModel,
>
    decreases s.len(),
{
    if s.len() == 0 {
        seq![x]
    } else if instr_le(s[0], x) {
        seq![s[0]] + insert_model(x, s.drop_first())
    } else {
        seq![x] + s
    }
}

/// The stable insertion sort of `s` in the output order.
pub open spec fn sort_model(s: Seq<HtlcInstructionModel>) -> Seq<HtlcInstructionModel>
    decreases s.len(),
{
    if s.len() == 0 {
        Seq::empty()
    } else {
        insert_model(s.last(), sort_model(s.drop_last()))
    }
}

/// Adjacent rows of `s` are in the output order.
pub open spec fn sorted_le(s: Seq<HtlcInstructionModel>) -> bool {
    forall|i: int| 0 <= i < s.len() - 1 ==> instr_le(#[trigger] s[i], s[i + 1])
}

proof fn lemma_insert_model_at(x: HtlcInstructionModel, s: Seq<HtlcInstructionModel>, j: int)
    requires
        0 <= j <= s.len(),
        forall|k: int| 0 <= k < j ==> instr_le(#[trigger] s[k], x),
        j < s.len() ==> !instr_le(s[j], x),
    ensures
        insert_model(x, s) == s.subrange(0, j) + seq![x] + s.subrange(j, s.len() as int),
    decreases j,
{
    if j == 0 {
        assert(insert_model(x, s) =~= s.subrange(0, 0) + seq![x] + s.subrange(0, s.len() as int));
    } else {
        assert(instr_le(s[0], x));
        let t = s.drop_first();
        assert(forall|k: int| 0 <= k < j - 1 ==> instr_le(#[trigger] t[k], x));
        lemma_insert_model_at(x, t, j - 1);
        assert(insert_model(x, s) == seq![s[0]] + insert_model(x, t));
        assert(seq![s[0]] + (t.subrange(0, j - 1) + seq![x] + t.subrange(j - 1, t.len() as int))
            =~= s.subrange(0, j) + seq![x] + s.subrange(j, s.len() as int));
    }
}

/// Inserting keeps the rows sorted and adds exactly `x` to the
/// contents.
pub proof fn lemma_insert_model_sorted(x: HtlcInstructionModel, s: Seq<HtlcInstructionModel>)
    requires
        sorted_le(s),
    ensures
        sorted_le(insert_model(x, s)),
        insert_model(x, s).to_multiset() == s.to_multiset().insert(x),
        insert_model(x, s).len() == s.len() + 1,
    decreases s.len(),
{
    broadcast use vstd::seq_lib::group_to_multiset_ensures;

    if s.len() == 0 {
        assert(seq![x].to_multiset() =~= s.to_multiset().insert(x)) by {
            assert(seq![x] =~= s.push(x));
        }
    } else if instr_le(s[0], x) {
        let t = s.drop_first();
        assert(sorted_le(t)) by {
            assert(forall|i: int| 0 <= i < t.len() - 1 ==> #[trigger] t[i] == s[i + 1] && t[i + 1] == s[i + 2]);
        }
        lemma_insert_model_sorted(x, t);
        let r = seq![s[0]] + insert_model(x, t);
        assert(insert_model(x, s) == r);
        // the head of the inserted tail is either t's head or x, and
        // s[0] compares at or below both
        assert(insert_model(x, t).len() > 0);
        assert(instr_le(s[0], insert_model(x, t)[0])) by {
            if t.len() == 0 || !instr_le(t[0], x) {
                assert(insert_model(x, t)[0] == x);
            } else {
                assert(insert_model(x, t)[0] == t[0]);
                assert(instr_le(s[0], s[1]));
            }
        }
        assert(sorted_le(r)) by {
            assert(forall|i: int| 1 <= i < r.len() - 1 ==> #[trigger] r[i] == insert_model(x, t)[i - 1]);
        }
        assert(r.to_multiset() == s.to_multiset().insert(x)) by {
            assert(r =~= insert_model(x, t).insert(0, s[0]));
            vstd::seq_lib::to_multiset_insert(insert_model(x, t), 0, s[0]);
            assert(s =~= t.insert(0, s[0]));
            vstd::seq_lib::to_multiset_insert(t, 0, s[0]);
            assert(r.to_multiset() =~= s.to_multiset().insert(x));
        }
    } else {
        lemma_instr_le_total(s[0], x);
        assert(instr_le(x, s[0]));
        let r = seq![x] + s;
        assert(sorted_le(r)) by {
            assert(forall|i: int| 1 <= i < r.len() - 1 ==> #[trigger] r[i] == s[i - 1] && r[i + 1] == s[i]);
        }
        assert(r.to_multiset() == s.to_multiset().insert(x)) by {
            assert(r =~= s.insert(0, x));
            vstd::seq_lib::to_multiset_insert(s, 0, x);
        }
    }
}

/// The sorted sequence is sorted and holds exactly the input rows.
pub proof fn lemma_sort_model_sorted(s: Seq<HtlcInstructionModel>)
    ensures
        sorted_le(sort_model(s)),
        sort_model(s).to_multiset() == s.to_multiset(),
        sort_model(s).len() == s.len(),
    decreases s.len(),
{
    broadcast use vstd::seq_lib::group_to_multiset_ensures;

    if s.len() > 0 {
        lemma_sort_model_sorted(s.drop_last());
        lemma_insert_model_sorted(s.last(), sort_model(s.drop_last()));
        assert(s =~= s.drop_last().push(s.last()));
        vstd::seq_lib::to_multiset_build(s.drop_last(), s.last());
    }
}

/// Sorts the output rows by `(path_id, channel_name)`, stably.
pub fn sort_instructions(input: Vec<HtlcInstruction>) -> (r: Vec<HtlcInstruction>)
    ensures
        r.deep_view() == sort_model(input.deep_view()),
        sorted_le(r.deep_view()),
        r.deep_view().to_multiset() == input.deep_view().to_multiset(),
{
    let ghost im = input.deep_view();
    let ghost iv = input@;
    let n = input.len();
    let mut rem = input;
    let mut out: Vec<HtlcInstruction> = Vec::new();
    let mut idx: usize = 0;
    while idx < n
        invariant
            idx <= n,
            n == iv.len(),
            im.len() == iv.len(),
            im == input.deep_view(),
            iv == input@,
            forall|i: int| 0 <= i < iv.len() ==> im[i] == (#[trigger] iv[i])@,
            rem@ == iv.subrange(idx as int, n as int),
            out.deep_view() == sort_model(im.subrange(0, idx as int)),
            sorted_le(out.deep_view()),
        decreases n - idx,
    {
        proof {
            lemma_sort_model_sorted(im.subrange(0, idx as int));
        }
        let x = rem.remove(0);
        proof {
            assert(x == iv[idx as int]);
            assert(rem@ =~= iv.subrange(idx + 1, n as int));
        }
        let mut j: usize = 0;
        let out_len = out.len();
        while j < out_len && instr_le_exec(&out[j], &x)
            invariant
                j <= out_len,
                out_len == out@.len(),
                out@.len() == out.deep_view().len(),
                forall|k: int| 0 <= k < j ==> instr_le(#[trigger] out.deep_view()[k], x@),
            decreases out_len - j,
        {
            j = j + 1;
        }
        let ghost om = out.deep_view();
        out.insert(j, x);
        idx = idx + 1;
        proof {
            lemma_insert_model_at(x@, om, j as int);
            assert(out.deep_view() =~= om.subrange(0, j as int) + seq![x@] + om.subrange(
                j as int,
                om.len() as int,
            ));
            let pre1 = im.subrange(0, idx as int);
            assert(pre1.drop_last() =~= im.subrange(0, idx - 1));
            assert(pre1.last() == im[idx - 1]);
            assert(out.deep_view() == insert_model(x@, sort_model(im.subrange(0, idx - 1))));
            lemma_sort_model_sorted(im.subrange(0, idx - 1));
            lemma_insert_model_sorted(x@, sort_model(im.subrange(0, idx - 1)));
        }
    }
    proof {
        assert(im.subrange(0, n as int) =~= im);
        lemma_sort_model_sorted(im);
    }
    out
}

} // verus!
