//! The flat view of a model's parameters: every parameter block, in a fixed
//! order, concatenated into one buffer, and a buffer cut back into blocks of
//! the blocks' lengths. The element type is generic: this only moves values.

use vstd::prelude::*;
use crate::error::AetherError;
use crate::shape::{row_views, shape_mismatch};
use crate::text::{append_chars, chars_of, decimal, decimal_chars, string_of};

verus! {

/// The sum of `lens`.
pub open spec fn total_len(lens: Seq<usize>) -> nat
    decreases lens.len(),
{
    if lens.len() == 0 {
        0
    } else {
        lens[0] as nat + total_len(lens.drop_first())
    }
}

/// `flat` cut, front to back, into consecutive parts of lengths `lens`.
pub open spec fn cut_by_lens<T>(flat: Seq<T>, lens: Seq<usize>) -> Seq<Seq<T>>
    decreases lens.len(),
{
    if lens.len() == 0 {
        seq![]
    } else {
        seq![flat.take(lens[0] as int)] + cut_by_lens(flat.skip(lens[0] as int), lens.drop_first())
    }
}

/// Whether `lens` lists the lengths of `parts`.
pub open spec fn lens_of<T>(parts: Seq<Seq<T>>, lens: Seq<usize>) -> bool {
    &&& lens.len() == parts.len()
    &&& forall|i: int| 0 <= i < lens.len() ==> #[trigger] lens[i] == parts[i].len()
}

proof fn lemma_total_push(lens: Seq<usize>, n: usize)
    ensures
        total_len(lens.push(n)) == total_len(lens) + n,
    decreases lens.len(),
{
    if lens.len() > 0 {
        assert(lens.push(n).drop_first() =~= lens.drop_first().push(n));
        assert(lens.push(n)[0] == lens[0]);
        lemma_total_push(lens.drop_first(), n);
    } else {
        assert(lens.push(n).drop_first() =~= Seq::<usize>::empty());
        assert(lens.push(n)[0] == n);
        assert(total_len(Seq::<usize>::empty()) == 0);
    }
}

/// The parts cut at `lens` from position `start` on are the parts of what
/// lies past `start`.
proof fn lemma_cut_prefix_step<T>(flat: Seq<T>, lens: Seq<usize>, k: int, start: int)
    requires
        0 <= k < lens.len(),
        start == total_len(lens.take(k)),
        total_len(lens) <= flat.len(),
    ensures
        cut_by_lens(flat, lens)[k] == flat.subrange(start, start + lens[k]),
        start + lens[k] <= total_len(lens),
    decreases k,
{
    let rest = lens.drop_first();
    let n0 = lens[0] as int;
    assert(total_len(lens) == n0 + total_len(rest));
    lemma_cut_len(flat.skip(n0), rest);
    let c = cut_by_lens(flat, lens);
    assert(c == seq![flat.take(n0)] + cut_by_lens(flat.skip(n0), rest));
    if k == 0 {
        assert(lens.take(0) =~= Seq::<usize>::empty());
        assert(c[0] == flat.take(n0));
        assert(flat.take(n0) =~= flat.subrange(0, n0));
    } else {
        let lt = lens.take(k);
        assert(lt =~= seq![lens[0]] + rest.take(k - 1));
        assert(lt[0] == lens[0]);
        assert(lt.drop_first() =~= rest.take(k - 1));
        assert(start == n0 + total_len(rest.take(k - 1)));
        lemma_cut_prefix_step(flat.skip(n0), rest, k - 1, start - n0);
        assert(c[k] == cut_by_lens(flat.skip(n0), rest)[k - 1]);
        assert(rest[k - 1] == lens[k]);
        assert(flat.skip(n0).subrange(start - n0, start - n0 + rest[k - 1]) =~= flat.subrange(
            start,
            start + lens[k],
        ));
    }
}

proof fn lemma_cut_len<T>(flat: Seq<T>, lens: Seq<usize>)
    ensures
        cut_by_lens(flat, lens).len() == lens.len(),
    decreases lens.len(),
{
    if lens.len() > 0 {
        lemma_cut_len(flat.skip(lens[0] as int), lens.drop_first());
    }
}

/// Cut `params` into consecutive blocks of lengths `lens`; the buffer must
/// hold exactly as many values as the blocks together.
pub fn split_flat_params<T: Copy>(params: &[T], lens: &[usize]) -> (r: Result<
    Vec<Vec<T>>,
    AetherError,
>)
    requires
        total_len(lens@) <= usize::MAX,
    ensures
        match r {
            Ok(parts) => params@.len() == total_len(lens@) && row_views(parts@) == cut_by_lens(
                params@,
                lens@,
            ),
            Err(e) => params@.len() != total_len(lens@) && shape_mismatch(
                e,
                "set_flat_params needs "@ + decimal(total_len(lens@)) + " values, got "@
                    + decimal(params@.len()),
            ),
        },
{
    let mut total: usize = 0;
    let mut i: usize = 0;
    while i < lens.len()
        invariant
            i <= lens.len(),
            total == total_len(lens@.take(i as int)),
            total_len(lens@) <= usize::MAX,
        decreases lens.len() - i,
    {
        proof {
            assert(lens@.take(i + 1) =~= lens@.take(i as int).push(lens@[i as int]));
            lemma_total_push(lens@.take(i as int), lens@[i as int]);
            lemma_total_prefix_le(lens@, i + 1);
        }
        total = total + lens[i];
        i = i + 1;
    }
    assert(lens@.take(lens.len() as int) =~= lens@);
    if params.len() != total {
        let mut msg = chars_of("set_flat_params needs ");
        append_chars(&mut msg, &decimal_chars(total));
        append_chars(&mut msg, &chars_of(" values, got "));
        append_chars(&mut msg, &decimal_chars(params.len()));
        return Err(AetherError::ShapeMismatch(string_of(&msg)));
    }
    let ghost cuts = cut_by_lens(params@, lens@);
    proof {
        lemma_cut_len(params@, lens@);
    }
    let mut parts: Vec<Vec<T>> = Vec::new();
    let mut offset: usize = 0;
    let mut k: usize = 0;
    while k < lens.len()
        invariant
            k <= lens.len(),
            params@.len() == total_len(lens@),
            total_len(lens@) <= usize::MAX,
            offset == total_len(lens@.take(k as int)),
            cuts == cut_by_lens(params@, lens@),
            cuts.len() == lens@.len(),
            parts@.len() == k,
            forall|j: int| 0 <= j < k ==> #[trigger] parts@[j]@ == cuts[j],
        decreases lens.len() - k,
    {
        proof {
            lemma_cut_prefix_step(params@, lens@, k as int, offset as int);
            assert(lens@.take(k + 1) =~= lens@.take(k as int).push(lens@[k as int]));
            lemma_total_push(lens@.take(k as int), lens@[k as int]);
        }
        let n = lens[k];
        let mut part: Vec<T> = Vec::new();
        let mut t: usize = 0;
        while t < n
            invariant
                t <= n,
                offset + n <= params.len(),
                part@ == params@.subrange(offset as int, offset + t),
            decreases n - t,
        {
            part.push(params[offset + t]);
            t = t + 1;
            assert(part@ =~= params@.subrange(offset as int, offset + t));
        }
        parts.push(part);
        offset = offset + n;
        k = k + 1;
    }
    assert(row_views(parts@) =~= cuts);
    Ok(parts)
}

proof fn lemma_total_prefix_le(lens: Seq<usize>, k: int)
    requires
        0 <= k <= lens.len(),
    ensures
        total_len(lens.take(k)) <= total_len(lens),
    decreases lens.len() - k,
{
    if k < lens.len() {
        lemma_total_prefix_le(lens, k + 1);
        assert(lens.take(k + 1) =~= lens.take(k).push(lens[k]));
        lemma_total_push(lens.take(k), lens[k]);
    } else {
        assert(lens.take(k) =~= lens);
    }
}

/// Cutting the concatenation of blocks at the blocks' lengths gives the
/// blocks back; and a buffer holding as many values as the blocks together,
/// cut at their lengths, concatenates back to itself.
pub proof fn law_flat_params_roundtrip<T>(parts: Seq<Seq<T>>, lens: Seq<usize>, flat: Seq<T>)
    requires
        lens_of(parts, lens),
    ensures
        total_len(lens) == parts.flatten_alt().len(),
        cut_by_lens(parts.flatten_alt(), lens) == parts,
        flat.len() == total_len(lens) ==> cut_by_lens(flat, lens).flatten_alt() == flat,
    decreases parts.len(),
{
    parts.lemma_flatten_and_flatten_alt_are_equivalent();
    lemma_cut_flatten(parts, lens);
    if flat.len() == total_len(lens) {
        lemma_flatten_cut(flat, lens);
        cut_by_lens(flat, lens).lemma_flatten_and_flatten_alt_are_equivalent();
    }
}

proof fn lemma_cut_flatten<T>(parts: Seq<Seq<T>>, lens: Seq<usize>)
    requires
        lens_of(parts, lens),
    ensures
        total_len(lens) == parts.flatten().len(),
        cut_by_lens(parts.flatten(), lens) == parts,
    decreases parts.len(),
{
    if parts.len() > 0 {
        let rest = parts.drop_first();
        let lr = lens.drop_first();
        assert(lens_of(rest, lr)) by {
            assert forall|i: int| 0 <= i < lr.len() implies #[trigger] lr[i] == rest[i].len() by {
                assert(lens[i + 1] == parts[i + 1].len());
            }
        }
        lemma_cut_flatten(rest, lr);
        let f = parts.flatten();
        assert(f == parts[0] + rest.flatten());
        assert(lens[0] == parts[0].len());
        assert(f.take(lens[0] as int) =~= parts[0]);
        assert(f.skip(lens[0] as int) =~= rest.flatten());
        assert(cut_by_lens(f, lens) =~= seq![parts[0]] + rest);
    } else {
        assert(cut_by_lens(parts.flatten(), lens) =~= parts);
    }
}

proof fn lemma_flatten_cut<T>(flat: Seq<T>, lens: Seq<usize>)
    requires
        flat.len() == total_len(lens),
    ensures
        cut_by_lens(flat, lens).flatten() == flat,
    decreases lens.len(),
{
    if lens.len() > 0 {
        let n = lens[0] as int;
        lemma_flatten_cut(flat.skip(n), lens.drop_first());
        let c = cut_by_lens(flat, lens);
        assert(c.drop_first() == cut_by_lens(flat.skip(n), lens.drop_first()));
        assert(flat =~= flat.take(n) + flat.skip(n));
    } else {
        assert(flat =~= Seq::<T>::empty());
    }
}

} // verus!
