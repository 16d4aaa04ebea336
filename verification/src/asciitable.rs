//! The adjustable glyph ramp: an ordered run of glyphs from darkest to
//! lightest (or the reverse) whose bright end can be padded with blank
//! glyphs to raise a contrast threshold, and trimmed back to the canonical
//! ramp.

use vstd::prelude::*;

verus! {

/// The blank glyph used to pad the bright end of a ramp.
pub open spec fn blank_glyph() -> u8 {
    32u8
}

/// The ramp after one widening step: one blank glyph joins the bright end.
pub open spec fn widened(table: Seq<u8>, is_reversed: bool) -> Seq<u8> {
    if is_reversed {
        seq![blank_glyph()] + table
    } else {
        table.push(blank_glyph())
    }
}

/// The ramp after one narrowing step: at the floor nothing changes,
/// otherwise one glyph leaves the bright end.
pub open spec fn narrowed(table: Seq<u8>, init_len: int, is_reversed: bool) -> Seq<u8> {
    if table.len() <= init_len {
        table
    } else if is_reversed {
        table.subrange(1, table.len() as int)
    } else {
        table.subrange(0, table.len() - 1)
    }
}

/// The canonical part of the ramp: what remains once every extension glyph
/// at the bright end is trimmed away.
pub open spec fn canonical(table: Seq<u8>, init_len: int, is_reversed: bool) -> Seq<u8> {
    if is_reversed {
        table.subrange(table.len() - init_len, table.len() as int)
    } else {
        table.subrange(0, init_len)
    }
}

/// An ordered glyph ramp with a mutable threshold region at its bright end.
pub struct ASCIITable {
    /// The glyphs, darkest first unless `is_reversed`.
    pub table: Vec<u8>,
    /// The length of the canonical (non-extended) ramp.
    pub init_len: usize,
    /// Whether the bright end sits at index 0 rather than at the tail.
    pub is_reversed: bool,
}

impl ASCIITable {
    /// Well-formedness: the canonical ramp is non-empty, the table holds at
    /// least the canonical glyphs, and every extension glyph is a blank
    /// sitting at the bright end.
    pub open spec fn wf(self) -> bool {
        &&& 1 <= self.init_len
        &&& self.init_len <= self.table@.len()
        &&& if self.is_reversed {
            forall|i: int|
                0 <= i < self.table@.len() - self.init_len ==> self.table@[i] == blank_glyph()
        } else {
            forall|i: int|
                self.init_len <= i < self.table@.len() ==> self.table@[i] == blank_glyph()
        }
    }

    /// The current threshold: how many extension glyphs the table carries.
    pub open spec fn threshold_spec(self) -> int {
        self.table@.len() - self.init_len
    }

    /// Widens the threshold by one: a blank glyph joins the bright end.
    pub fn inc_threshold(&mut self)
        ensures
            final(self).table@ == widened(old(self).table@, old(self).is_reversed),
            final(self).init_len == old(self).init_len,
            final(self).is_reversed == old(self).is_reversed,
            old(self).wf() ==> final(self).wf(),
    {
        if self.is_reversed {
            self.table.insert(0, 32u8);
            proof {
                assert(self.table@ =~= widened(old(self).table@, old(self).is_reversed));
            }
        } else {
            self.table.push(32u8);
        }
    }

    /// Narrows the threshold by one, down to a floor of zero; at the floor
    /// the call is a no-op.
    pub fn dec_threshold(&mut self)
        requires
            old(self).init_len <= old(self).table@.len(),
        ensures
            final(self).table@ == narrowed(
                old(self).table@,
                old(self).init_len as int,
                old(self).is_reversed,
            ),
            final(self).init_len == old(self).init_len,
            final(self).is_reversed == old(self).is_reversed,
            old(self).wf() ==> final(self).wf(),
    {
        if self.table.len() == self.init_len {
            return ;
        }
        if self.is_reversed {
            self.table.remove(0);
            proof {
                assert(self.table@ =~= old(self).table@.subrange(
                    1,
                    old(self).table@.len() as int,
                ));
            }
        } else {
            self.table.pop();
        }
    }

    /// Restores the ramp to its canonical length in one step, trimming every
    /// extension glyph from the bright end.
    pub fn reset_threshold(&mut self)
        requires
            old(self).init_len <= old(self).table@.len(),
        ensures
            final(self).table@ == canonical(
                old(self).table@,
                old(self).init_len as int,
                old(self).is_reversed,
            ),
            final(self).table@.len() == old(self).init_len,
            final(self).init_len == old(self).init_len,
            final(self).is_reversed == old(self).is_reversed,
            old(self).wf() ==> final(self).wf(),
    {
        if self.is_reversed {
            let r = self.table.len() - self.init_len;
            let tail = self.table.split_off(r);
            self.table = tail;
        } else {
            self.table.truncate(self.init_len);
        }
    }

    /// The current threshold: the count of extension glyphs beyond the
    /// canonical ramp.
    pub fn threshold(&self) -> (t: usize)
        requires
            self.init_len <= self.table@.len(),
        ensures
            t == self.threshold_spec(),
    {
        self.table.len() - self.init_len
    }
}

/// The ramp after `n` widening steps.
pub open spec fn widened_n(table: Seq<u8>, is_reversed: bool, n: nat) -> Seq<u8>
    decreases n,
{
    if n == 0 {
        table
    } else {
        widened(widened_n(table, is_reversed, (n - 1) as nat), is_reversed)
    }
}

/// The ramp after `n` narrowing steps.
pub open spec fn narrowed_n(table: Seq<u8>, init_len: int, is_reversed: bool, n: nat) -> Seq<u8>
    decreases n,
{
    if n == 0 {
        table
    } else {
        narrowed_n(narrowed(table, init_len, is_reversed), init_len, is_reversed, (n - 1) as nat)
    }
}

/// Widening grows the ramp by exactly one glyph per step.
pub proof fn lemma_widened_n_len(table: Seq<u8>, is_reversed: bool, n: nat)
    ensures
        widened_n(table, is_reversed, n).len() == table.len() + n,
    decreases n,
{
    if n > 0 {
        lemma_widened_n_len(table, is_reversed, (n - 1) as nat);
    }
}

/// Law: one narrowing step undoes one widening step exactly, whenever the
/// ramp holds at least its canonical glyphs.
pub proof fn lemma_narrow_undoes_widen(table: Seq<u8>, init_len: int, is_reversed: bool)
    requires
        0 <= init_len <= table.len(),
    ensures
        narrowed(widened(table, is_reversed), init_len, is_reversed) == table,
{
    assert(narrowed(widened(table, is_reversed), init_len, is_reversed) =~= table);
}

/// Law: widening `n` times and then narrowing `n` times restores the ramp
/// exactly, content and order included; in particular the threshold returns
/// to its starting value.
pub proof fn lemma_widen_narrow_roundtrip(table: Seq<u8>, init_len: int, is_reversed: bool, n: nat)
    requires
        0 <= init_len <= table.len(),
    ensures
        narrowed_n(widened_n(table, is_reversed, n), init_len, is_reversed, n) == table,
    decreases n,
{
    if n > 0 {
        let w = widened_n(table, is_reversed, (n - 1) as nat);
        lemma_widened_n_len(table, is_reversed, (n - 1) as nat);
        lemma_narrow_undoes_widen(w, init_len, is_reversed);
        lemma_widen_narrow_roundtrip(table, init_len, is_reversed, (n - 1) as nat);
    }
}

/// Law: widening never touches the canonical part of the ramp.
pub proof fn lemma_canonical_widen(table: Seq<u8>, init_len: int, is_reversed: bool)
    requires
        0 <= init_len <= table.len(),
    ensures
        canonical(widened(table, is_reversed), init_len, is_reversed) == canonical(
            table,
            init_len,
            is_reversed,
        ),
{
    assert(canonical(widened(table, is_reversed), init_len, is_reversed) =~= canonical(
        table,
        init_len,
        is_reversed,
    ));
}

/// Law: narrowing never touches the canonical part of the ramp.
pub proof fn lemma_canonical_narrow(table: Seq<u8>, init_len: int, is_reversed: bool)
    requires
        0 <= init_len <= table.len(),
    ensures
        canonical(narrowed(table, init_len, is_reversed), init_len, is_reversed) == canonical(
            table,
            init_len,
            is_reversed,
        ),
{
    assert(canonical(narrowed(table, init_len, is_reversed), init_len, is_reversed) =~= canonical(
        table,
        init_len,
        is_reversed,
    ));
}

/// Law: one reset is the same as narrowing exactly threshold-many times,
/// for any well-formed ramp state.
pub proof fn lemma_reset_is_iterated_narrow(table: Seq<u8>, init_len: int, is_reversed: bool)
    requires
        1 <= init_len <= table.len(),
    ensures
        narrowed_n(table, init_len, is_reversed, (table.len() - init_len) as nat) == canonical(
            table,
            init_len,
            is_reversed,
        ),
    decreases table.len(),
{
    if table.len() == init_len {
        assert(canonical(table, init_len, is_reversed) =~= table);
    } else {
        lemma_canonical_narrow(table, init_len, is_reversed);
        lemma_reset_is_iterated_narrow(narrowed(table, init_len, is_reversed), init_len, is_reversed);
    }
}

} // verus!
