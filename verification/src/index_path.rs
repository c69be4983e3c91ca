//! Positions in nested arrays, in a compact form and as texts.

use crate::path;
use crate::text;
use crate::text::{decimal_text, push_padded_decimal};
use crate::walk::copy_indexes;
use vstd::prelude::*;

verus! {

/// A position in nested arrays, outermost first; up to three places are held in line.
#[derive(Debug)]
pub enum CompactIndexPath {
    One(usize),
    Two(usize, usize),
    Three(usize, usize, usize),
    Many(Vec<usize>),
}

/// The places in decimal, with `,` between them.
pub open spec fn csv(index: Seq<nat>) -> Seq<char> {
    text::joined(path::decimals(index), ","@)
}

/// The position as a JSON array.
pub open spec fn json_text(index: Seq<nat>) -> Seq<char> {
    "["@ + csv(index) + "]"@
}

/// The places in decimal digits, twenty each.
pub open spec fn padded(index: Seq<nat>) -> Seq<Seq<char>> {
    Seq::new(index.len(), |i: int| text::padded_decimal(index[i], 20))
}

/// A text that sorts as the position does.
pub open spec fn sort_key(index: Seq<nat>) -> Seq<char> {
    text::joined(padded(index), "/"@)
}

/// Appends an index in twenty digits.
pub fn push_padded_index(out: &mut String, index: usize)
    ensures
        final(out)@ == old(out)@ + text::padded_decimal(index as nat, 20),
{
    push_padded_decimal(out, index, 20);
}

impl CompactIndexPath {
    pub open spec fn model(self) -> Seq<nat> {
        match self {
            CompactIndexPath::One(a) => seq![a as nat],
            CompactIndexPath::Two(a, b) => seq![a as nat, b as nat],
            CompactIndexPath::Three(a, b, c) => seq![a as nat, b as nat, c as nat],
            CompactIndexPath::Many(indexes) => text::models(indexes@),
        }
    }

    pub fn from_slice(index_path: &Vec<usize>) -> (r: Self)
        ensures
            r.model() == text::models(index_path@),
            r is Many <==> index_path@.len() == 0 || index_path@.len() > 3,
    {
        let ghost target = text::models(index_path@);
        let r = match index_path.len() {
            1 => CompactIndexPath::One(index_path[0]),
            2 => CompactIndexPath::Two(index_path[0], index_path[1]),
            3 => CompactIndexPath::Three(index_path[0], index_path[1], index_path[2]),
            _ => CompactIndexPath::Many(copy_indexes(index_path)),
        };
        assert(r.model() =~= target);
        r
    }

    pub fn len(&self) -> (r: usize)
        ensures
            r == self.model().len(),
    {
        match self {
            CompactIndexPath::One(_) => 1,
            CompactIndexPath::Two(_, _) => 2,
            CompactIndexPath::Three(_, _, _) => 3,
            CompactIndexPath::Many(indexes) => indexes.len(),
        }
    }

    /// The place at depth `i`.
    fn at(&self, i: usize) -> (r: usize)
        requires
            i < self.model().len(),
        ensures
            r == self.model()[i as int],
    {
        match self {
            CompactIndexPath::One(a) => *a,
            CompactIndexPath::Two(a, b) => if i == 0 {
                *a
            } else {
                *b
            },
            CompactIndexPath::Three(a, b, c) => if i == 0 {
                *a
            } else if i == 1 {
                *b
            } else {
                *c
            },
            CompactIndexPath::Many(indexes) => indexes[i],
        }
    }

    /// Replaces the text by the position as a JSON array.
    pub fn write_json_string(&self, out: &mut String)
        ensures
            final(out)@ == json_text(self.model()),
    {
        *out = String::new();
        out.append("[");
        self.write_csv(out);
        out.append("]");
        assert(out@ =~= json_text(self.model()));
    }

    /// Replaces the text by the sort key.
    pub fn write_sort_key(&self, out: &mut String)
        ensures
            final(out)@ == sort_key(self.model()),
    {
        *out = String::new();
        self.write_padded_csv(out);
        assert(out@ =~= sort_key(self.model()));
    }

    /// Appends the places in decimal.
    pub fn write_csv(&self, out: &mut String)
        ensures
            final(out)@ == old(out)@ + csv(self.model()),
    {
        let ghost before = out@;
        let ghost parts = path::decimals(self.model());
        let mut i: usize = 0;
        assert(parts.take(0) =~= Seq::empty());
        assert(before + text::joined(parts.take(0), ","@) =~= before);
        while i < self.len()
            invariant
                parts == path::decimals(self.model()),
                i <= parts.len(),
                out@ == before + text::joined(parts.take(i as int), ","@),
            decreases parts.len() - i,
        {
            proof {
                assert(parts.take(i + 1).drop_last() =~= parts.take(i as int));
                assert(parts.take(i + 1)[i as int] == parts[i as int]);
            }
            if i > 0 {
                out.append(",");
            }
            out.append(decimal_text(self.at(i) as u128).as_str());
            assert(out@ =~= before + text::joined(parts.take(i + 1), ","@));
            i = i + 1;
        }
        assert(parts.take(parts.len() as int) =~= parts);
    }

    /// Appends the places in twenty digits each.
    pub fn write_padded_csv(&self, out: &mut String)
        ensures
            final(out)@ == old(out)@ + sort_key(self.model()),
    {
        let ghost before = out@;
        let ghost parts = padded(self.model());
        let mut i: usize = 0;
        assert(parts.take(0) =~= Seq::empty());
        assert(before + text::joined(parts.take(0), "/"@) =~= before);
        while i < self.len()
            invariant
                parts == padded(self.model()),
                i <= parts.len(),
                out@ == before + text::joined(parts.take(i as int), "/"@),
            decreases parts.len() - i,
        {
            proof {
                assert(parts.take(i + 1).drop_last() =~= parts.take(i as int));
                assert(parts.take(i + 1)[i as int] == parts[i as int]);
            }
            if i > 0 {
                out.append("/");
            }
            push_padded_index(out, self.at(i));
            assert(out@ =~= before + text::joined(parts.take(i + 1), "/"@));
            i = i + 1;
        }
        assert(parts.take(parts.len() as int) =~= parts);
    }
}

/// The position as a JSON array.
pub fn index_path_json(index_path: &Vec<usize>) -> (r: String)
    ensures
        r@ == json_text(text::models(index_path@)),
{
    let mut out = String::new();
    CompactIndexPath::from_slice(index_path).write_json_string(&mut out);
    out
}

} // verus!
