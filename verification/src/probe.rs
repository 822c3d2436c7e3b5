//! The control-probe filter.
//!
//! Control probes are synthetic or background features. They are told from
//! genes by the beginning of their feature name.

use vstd::prelude::*;
use crate::table::Transcript;
use crate::text::chars_of;
use crate::text::has_prefix;
use crate::text::starts_with;

verus! {

/// Whether a feature name belongs to a control probe: it begins with one of
/// the four reserved prefixes.
pub open spec fn is_control_probe(name: Seq<char>) -> bool {
    ||| starts_with(name, "NegControlProbe_"@)
    ||| starts_with(name, "antisense_"@)
    ||| starts_with(name, "NegControlCodeword_"@)
    ||| starts_with(name, "BLANK_"@)
}

/// Whether a record stays in the table: its feature is no control probe.
pub open spec fn is_retained(t: Transcript) -> bool {
    !is_control_probe(t.feature_name@)
}

/// `is_retained` as a predicate for filtering.
pub open spec fn retained() -> spec_fn(Transcript) -> bool {
    |t: Transcript| is_retained(t)
}

/// Tests whether a feature name belongs to a control probe.
pub fn names_control_probe(feature_name: &str) -> (yes: bool)
    ensures
        yes == is_control_probe(feature_name@),
{
    let name = chars_of(feature_name);
    has_prefix(&name, &chars_of("NegControlProbe_")) || has_prefix(&name, &chars_of("antisense_"))
        || has_prefix(&name, &chars_of("NegControlCodeword_")) || has_prefix(
        &name,
        &chars_of("BLANK_"),
    )
}

/// Removes the control probes from the table. The records that stay keep
/// their order and everything they hold.
pub fn filter_transcripts(table: &Vec<Transcript>) -> (kept: Vec<Transcript>)
    ensures
        kept@ == table@.filter(retained()),
{
    let mut kept: Vec<Transcript> = Vec::new();
    let mut i: usize = 0;
    assert(table@.take(0) =~= Seq::<Transcript>::empty());
    assert(Seq::<Transcript>::empty().filter(retained()) =~= Seq::<Transcript>::empty()) by {
        reveal(Seq::filter);
    }
    while i < table.len()
        invariant
            i <= table.len(),
            kept@ == table@.take(i as int).filter(retained()),
        decreases table.len() - i,
    {
        proof {
            assert(table@.take(i + 1) =~= table@.take(i as int).push(table@[i as int]));
            table@.take(i as int).lemma_filter_push(table@[i as int], retained());
        }
        if !names_control_probe(table[i].feature_name.as_str()) {
            kept.push(table[i].duplicate());
        }
        i += 1;
    }
    assert(table@.take(i as int) =~= table@);
    kept
}

/// The positions in `table` of the records that stay, in rising order.
pub open spec fn kept_positions(table: Seq<Transcript>) -> Seq<int>
    decreases table.len(),
{
    if table.len() == 0 {
        Seq::empty()
    } else if is_retained(table.last()) {
        kept_positions(table.drop_last()).push(table.len() - 1)
    } else {
        kept_positions(table.drop_last())
    }
}

/// The filter drops exactly the control probes and changes nothing else.
///
/// The filtered table holds, one for one and unchanged, the records at the
/// positions of `kept_positions`. These positions rise, so the records keep
/// their relative order. No record at such a position is a control probe,
/// and every record that is not a control probe stands at one of them.
pub proof fn lemma_filter_keeps_exactly(table: Seq<Transcript>)
    ensures
        table.filter(retained()).len() == kept_positions(table).len(),
        forall|n: int|
            0 <= n < kept_positions(table).len() ==> {
                &&& 0 <= (#[trigger] kept_positions(table)[n]) < table.len()
                &&& is_retained(table[kept_positions(table)[n]])
                &&& table.filter(retained())[n] == table[kept_positions(table)[n]]
            },
        forall|m: int, n: int|
            0 <= m < n < kept_positions(table).len() ==> kept_positions(table)[m]
                < kept_positions(table)[n],
        forall|i: int|
            0 <= i < table.len() && is_retained(#[trigger] table[i]) ==> kept_positions(
                table,
            ).contains(i),
    decreases table.len(),
{
    reveal(Seq::filter);
    if table.len() > 0 {
        let front = table.drop_last();
        let before = kept_positions(front);
        let all = kept_positions(table);
        lemma_filter_keeps_exactly(front);
        assert forall|n: int| 0 <= n < all.len() implies {
            &&& 0 <= (#[trigger] all[n]) < table.len()
            &&& is_retained(table[all[n]])
            &&& table.filter(retained())[n] == table[all[n]]
        } by {
            if n < before.len() {
                assert(all[n] == before[n]);
                assert(front[before[n]] == table[before[n]]);
                assert(table.filter(retained())[n] == front.filter(retained())[n]);
            }
        }
        assert forall|i: int| 0 <= i < table.len() && is_retained(#[trigger] table[i]) implies all.contains(
            i,
        ) by {
            if i < front.len() {
                assert(front[i] == table[i]);
                assert(before.contains(i));
                let n = choose|n: int| 0 <= n < before.len() && before[n] == i;
                assert(all[n] == i);
            } else {
                assert(all[all.len() - 1] == i);
            }
        }
    }
}

} // verus!
