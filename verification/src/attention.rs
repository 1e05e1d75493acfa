//! Bookkeeping of causal self-attention: which key positions each query
//! position must not see, and the per-layer key/value cache.

use vstd::prelude::*;

verus! {

/// Whether query row `row` of `seq_len` new positions (after `past_len`
/// cached ones) must not attend to key column `col`: keys after its own
/// position are masked.
pub open spec fn is_masked(past_len: int, row: int, col: int) -> bool {
    col > past_len + row
}

/// The causal mask for `seq_len` new positions after `past_len` cached ones,
/// row-major over `seq_len` rows of `past_len + seq_len` columns; `true`
/// marks a masked key.
pub fn create_causal_mask(seq_len: usize, past_len: usize) -> (mask: Vec<bool>)
    requires
        past_len + seq_len <= usize::MAX,
        seq_len * (past_len + seq_len) <= usize::MAX,
    ensures
        mask@.len() == seq_len * (past_len + seq_len),
        forall|row: int, col: int|
            0 <= row < seq_len && 0 <= col < past_len + seq_len ==> #[trigger] mask@[row * (past_len
                + seq_len) + col] == is_masked(past_len as int, row, col),
{
    let total = past_len + seq_len;
    let mut mask: Vec<bool> = Vec::new();
    let mut row: usize = 0;
    while row < seq_len
        invariant
            total == past_len + seq_len,
            seq_len * total <= usize::MAX,
            0 <= row <= seq_len,
            mask@.len() == row * total,
            forall|r: int, c: int|
                0 <= r < row && 0 <= c < total ==> #[trigger] mask@[r * total + c] == is_masked(
                    past_len as int,
                    r,
                    c,
                ),
        decreases seq_len - row,
    {
        let current = past_len + row;
        let mut col: usize = 0;
        let ghost start = mask@;
        proof {
            assert(row * total + total <= seq_len * total) by (nonlinear_arith)
                requires
                    row < seq_len,
                    total >= 0,
            ;
        }
        while col < total
            invariant
                total == past_len + seq_len,
                row < seq_len,
                current == past_len + row,
                0 <= col <= total,
                start.len() == row * total,
                mask@.len() == row * total + col,
                forall|q: int| 0 <= q < start.len() ==> mask@[q] == start[q],
                forall|c: int| 0 <= c < col ==> #[trigger] mask@[row * total + c] == is_masked(
                    past_len as int,
                    row as int,
                    c,
                ),
            decreases total - col,
        {
            mask.push(col > current);
            col = col + 1;
        }
        proof {
            assert forall|r: int, c: int| 0 <= r < row + 1 && 0 <= c < total implies #[trigger] mask@[r
                * total + c] == is_masked(past_len as int, r, c) by {
                if r < row {
                    assert(r * total + c < row * total) by (nonlinear_arith)
                        requires
                            r < row,
                            c < total,
                    ;
                    assert(mask@[r * total + c] == start[r * total + c]);
                }
            }
            assert((row + 1) * total == row * total + total) by (nonlinear_arith);
        }
        row = row + 1;
    }
    mask
}

/// Key/value entries cached per decoder layer; empty layers hold `None`.
pub struct KvCache<E> {
    layers: Vec<Option<E>>,
}

impl<E> KvCache<E> {
    pub closed spec fn view_layers(&self) -> Seq<Option<E>> {
        self.layers@
    }

    /// A cache with `num_layers` empty layers.
    pub fn new(num_layers: usize) -> (c: Self)
        ensures
            c.view_layers().len() == num_layers,
            forall|i: int| 0 <= i < num_layers ==> #[trigger] c.view_layers()[i] is None,
    {
        let mut layers: Vec<Option<E>> = Vec::new();
        let mut i: usize = 0;
        while i < num_layers
            invariant
                0 <= i <= num_layers,
                layers@.len() == i,
                forall|k: int| 0 <= k < i ==> #[trigger] layers@[k] is None,
            decreases num_layers - i,
        {
            layers.push(None);
            i = i + 1;
        }
        KvCache { layers }
    }

    /// The entry of layer `index`, if the layer exists and holds one.
    pub fn layer(&self, index: usize) -> (e: Option<&E>)
        ensures
            index < self.view_layers().len() ==> e == match self.view_layers()[index as int] {
                Some(x) => Some(&x),
                None => None::<&E>,
            },
            index >= self.view_layers().len() ==> e is None,
    {
        if index < self.layers.len() {
            match &self.layers[index] {
                Some(x) => Some(x),
                None => None,
            }
        } else {
            None
        }
    }

    /// Stores `entry` in layer `index`; does nothing past the last layer.
    pub fn set_layer(&mut self, index: usize, entry: E)
        ensures
            index < old(self).view_layers().len() ==> final(self).view_layers() == old(
                self,
            ).view_layers().update(index as int, Some(entry)),
            index >= old(self).view_layers().len() ==> final(self).view_layers() == old(
                self,
            ).view_layers(),
    {
        if index < self.layers.len() {
            self.layers.set(index, Some(entry));
        }
    }

    /// The entry of the first layer that holds one: the cached sequence
    /// length is read from it.
    pub fn first_filled(&self) -> (e: Option<&E>)
        ensures
            e matches Some(x) ==> exists|i: int|
                0 <= i < self.view_layers().len() && self.view_layers()[i] == Some(*x) && forall|
                    j: int,
                | 0 <= j < i ==> #[trigger] self.view_layers()[j] is None,
            e is None ==> forall|i: int| 0 <= i < self.view_layers().len() ==> #[trigger] self.view_layers()[i] is None,
    {
        let mut i: usize = 0;
        while i < self.layers.len()
            invariant
                0 <= i <= self.layers@.len(),
                forall|j: int| 0 <= j < i ==> #[trigger] self.layers@[j] is None,
            decreases self.layers@.len() - i,
        {
            match &self.layers[i] {
                Some(x) => {
                    return Some(x);
                },
                None => {},
            }
            i = i + 1;
        }
        None
    }
}

} // verus!
