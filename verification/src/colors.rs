//! The per-topic color table: display level to packed 8-bit-per-channel
//! color (alpha, red, green, blue, high byte first), lazily filled with
//! black on first lookup of an unset level.

use vstd::prelude::*;

verus! {

/// Opaque black, packed.
pub const BLACK: u32 = 0xff00_0000;

/// First-match lookup in an association list.
pub open spec fn spec_color(s: Seq<(u8, u32)>, level: u8) -> Option<u32>
    decreases s.len(),
{
    if s.len() == 0 {
        None
    } else if s[0].0 == level {
        Some(s[0].1)
    } else {
        spec_color(s.skip(1), level)
    }
}

proof fn lemma_spec_color_at_first_match(s: Seq<(u8, u32)>, level: u8, i: int)
    requires
        0 <= i < s.len(),
        s[i].0 == level,
        forall|j: int| 0 <= j < i ==> (#[trigger] s[j]).0 != level,
    ensures
        spec_color(s, level) == Some(s[i].1),
    decreases i,
{
    if i > 0 {
        lemma_spec_color_at_first_match(s.skip(1), level, i - 1);
    }
}

proof fn lemma_spec_color_no_match(s: Seq<(u8, u32)>, level: u8)
    requires
        forall|j: int| 0 <= j < s.len() ==> (#[trigger] s[j]).0 != level,
    ensures
        spec_color(s, level) is None,
    decreases s.len(),
{
    if s.len() > 0 {
        lemma_spec_color_no_match(s.skip(1), level);
    }
}

proof fn lemma_spec_color_update(s: Seq<(u8, u32)>, level: u8, color: u32, i: int, l: u8)
    requires
        0 <= i < s.len(),
        s[i].0 == level,
    ensures
        l != level ==> spec_color(s.update(i, (level, color)), l) == spec_color(s, l),
    decreases i,
{
    let s2 = s.update(i, (level, color));
    if i == 0 {
        assert(s2.skip(1) =~= s.skip(1));
    } else {
        assert(s2.skip(1) =~= s.skip(1).update(i - 1, (level, color)));
        lemma_spec_color_update(s.skip(1), level, color, i - 1, l);
    }
}

proof fn lemma_spec_color_push(s: Seq<(u8, u32)>, level: u8, color: u32, l: u8)
    requires
        spec_color(s, level) is None,
    ensures
        spec_color(s.push((level, color)), level) == Some(color),
        l != level ==> spec_color(s.push((level, color)), l) == spec_color(s, l),
    decreases s.len(),
{
    let p = s.push((level, color));
    if s.len() == 0 {
        assert(p.skip(1) =~= Seq::<(u8, u32)>::empty());
        assert(p[0] == (level, color));
        if l != level {
            assert(spec_color(p, l) == spec_color(p.skip(1), l));
        }
    } else {
        assert(p.skip(1) =~= s.skip(1).push((level, color)));
        assert(p[0] == s[0]);
        lemma_spec_color_push(s.skip(1), level, color, l);
        if l != level && p[0].0 != l {
            assert(spec_color(p, l) == spec_color(p.skip(1), l));
            assert(spec_color(s, l) == spec_color(s.skip(1), l));
        }
    }
}

/// The color table.
pub struct ColorMap {
    entries: Vec<(u8, u32)>,
}

impl View for ColorMap {
    type V = Map<u8, u32>;

    closed spec fn view(&self) -> Map<u8, u32> {
        Map::new(
            |l: u8| spec_color(self.entries@, l) is Some,
            |l: u8| spec_color(self.entries@, l)->Some_0,
        )
    }
}

impl ColorMap {
    /// An empty table.
    pub fn new() -> (r: ColorMap)
        ensures
            r@ == Map::<u8, u32>::empty(),
    {
        let r = ColorMap { entries: Vec::new() };
        proof {
            assert forall|l: u8| !(spec_color(r.entries@, l) is Some) by {
                lemma_spec_color_no_match(r.entries@, l);
            }
            assert(r@ =~= Map::<u8, u32>::empty());
        }
        r
    }

    /// Index of the entry for `level`, if one exists.
    fn find(&self, level: u8) -> (r: Option<usize>)
        ensures
            match r {
                Some(i) => i < self.entries@.len() && self.entries@[i as int].0 == level
                    && (forall|j: int| 0 <= j < i ==> (#[trigger] self.entries@[j]).0 != level),
                None => forall|j: int|
                    0 <= j < self.entries@.len() ==> (#[trigger] self.entries@[j]).0 != level,
            },
    {
        let mut i: usize = 0;
        while i < self.entries.len()
            invariant
                i <= self.entries@.len(),
                forall|j: int| 0 <= j < i ==> (#[trigger] self.entries@[j]).0 != level,
            decreases self.entries@.len() - i,
        {
            if self.entries[i].0 == level {
                return Some(i);
            }
            i += 1;
        }
        None
    }

    /// The color set for `level`, if any.
    pub fn get(&self, level: u8) -> (r: Option<u32>)
        ensures
            r == if self@.contains_key(level) {
                Some(self@[level])
            } else {
                None::<u32>
            },
    {
        match self.find(level) {
            Some(i) => {
                proof {
                    lemma_spec_color_at_first_match(self.entries@, level, i as int);
                }
                Some(self.entries[i].1)
            },
            None => {
                proof {
                    lemma_spec_color_no_match(self.entries@, level);
                }
                None
            },
        }
    }

    /// Sets the color of `level` and reports whether the table changed.
    pub fn set(&mut self, level: u8, color: u32) -> (changed: bool)
        ensures
            final(self)@ == old(self)@.insert(level, color),
            changed == !(old(self)@.contains_key(level) && old(self)@[level] == color),
    {
        let ghost s0 = self.entries@;
        match self.find(level) {
            Some(i) => {
                proof {
                    lemma_spec_color_at_first_match(s0, level, i as int);
                }
                let old_color = self.entries[i].1;
                self.entries[i] = (level, color);
                proof {
                    lemma_spec_color_at_first_match(self.entries@, level, i as int);
                    assert forall|l: u8| l != level implies spec_color(self.entries@, l)
                        == spec_color(s0, l) by {
                        lemma_spec_color_update(s0, level, color, i as int, l);
                    }
                    assert(final(self)@ =~= old(self)@.insert(level, color));
                }
                old_color != color
            },
            None => {
                proof {
                    lemma_spec_color_no_match(s0, level);
                }
                self.entries.push((level, color));
                proof {
                    assert forall|l: u8| l != level implies spec_color(self.entries@, l)
                        == spec_color(s0, l) by {
                        lemma_spec_color_push(s0, level, color, l);
                    }
                    lemma_spec_color_push(s0, level, color, level);
                    assert(final(self)@ =~= old(self)@.insert(level, color));
                }
                true
            },
        }
    }

    /// The color of `level`, entering the default black first where none is
    /// set yet.
    pub fn get_or_insert_default(&mut self, level: u8) -> (r: u32)
        ensures
            final(self)@ == old(self)@.insert(level, r),
            r == if old(self)@.contains_key(level) {
                old(self)@[level]
            } else {
                BLACK
            },
    {
        match self.get(level) {
            Some(color) => {
                proof {
                    assert(old(self)@.insert(level, color) =~= old(self)@);
                }
                color
            },
            None => {
                self.set(level, BLACK);
                BLACK
            },
        }
    }

    /// The table as a list of `(level, color)` pairs, in table order.
    pub fn entries(&self) -> (r: &Vec<(u8, u32)>)
        ensures
            forall|l: u8| self@.contains_key(l) ==> exists|j: int|
                0 <= j < r@.len() && (#[trigger] r@[j]) == (l, self@[l]),
    {
        proof {
            assert forall|l: u8| self@.contains_key(l) implies exists|j: int|
                0 <= j < self.entries@.len() && (#[trigger] self.entries@[j]) == (
                l,
                self@[l],
            ) by {
                lemma_spec_color_some_witness(self.entries@, l);
            }
        }
        &self.entries
    }
}

proof fn lemma_spec_color_some_witness(s: Seq<(u8, u32)>, l: u8)
    requires
        spec_color(s, l) is Some,
    ensures
        exists|j: int| 0 <= j < s.len() && (#[trigger] s[j]) == (l, spec_color(s, l)->Some_0),
    decreases s.len(),
{
    if s.len() > 0 {
        if s[0].0 == l {
            assert(s[0] == (l, spec_color(s, l)->Some_0));
        } else {
            lemma_spec_color_some_witness(s.skip(1), l);
            let j = choose|j: int|
                0 <= j < s.skip(1).len() && (#[trigger] s.skip(1)[j]) == (
                    l,
                    spec_color(s.skip(1), l)->Some_0,
                );
            assert(s[j + 1] == (l, spec_color(s, l)->Some_0));
        }
    }
}

} // verus!
