use vstd::prelude::*;

verus! {

/// Number of states, and of byte values.
pub const WIDTH: usize = 256;

/// Number of entries in each table: one per (state, byte) pair.
pub const CELLS: usize = 65536;

/// Length of a serialized key: the start state, then two bytes per entry.
pub const KEY_LEN: usize = 131073;

/// Position of the pair `p` in a row-major table.
pub open spec fn cell(p: (u8, u8)) -> int {
    p.0 as int * 256 + p.1 as int
}

/// The pair stored at position `k` of a row-major table.
pub open spec fn pair_at(k: int) -> (u8, u8) {
    ((k / 256) as u8, (k % 256) as u8)
}

/// The serialized form of `m`: the start state, then `(next state, output)`
/// for every forward entry in row-major order.
pub open spec fn key_bytes(m: TransducerModel) -> Seq<u8> {
    seq![m.start] + Seq::new(
        131072,
        |n: int|
            if n % 2 == 0 {
                m.forward[n / 2].0
            } else {
                m.forward[n / 2].1
            },
    )
}

/// The forward table that the key bytes `b` hold.
pub open spec fn key_table(b: Seq<u8>) -> Seq<(u8, u8)> {
    Seq::new(65536, |k: int| (b[1 + 2 * k], b[2 + 2 * k]))
}

/// The inverse table rebuilt from the first `n` entries of `f`, mirrored in
/// order into a table of `(0, 0)`: a later entry overwrites an earlier one.
pub open spec fn mirror(f: Seq<(u8, u8)>, n: nat) -> Seq<(u8, u8)>
    decreases n,
{
    if n == 0 {
        Seq::new(65536, |k: int| (0u8, 0u8))
    } else {
        mirror(f, (n - 1) as nat).update(cell(f[n - 1]), pair_at(n - 1))
    }
}

/// The transducer loaded from the key bytes `b`.
pub open spec fn key_model(b: Seq<u8>) -> TransducerModel {
    TransducerModel { start: b[0], forward: key_table(b), inverse: mirror(key_table(b), 65536) }
}

/// Every (state, byte) pair, in row-major order.
pub open spec fn every_pair() -> Seq<(u8, u8)> {
    Seq::new(65536, |k: int| pair_at(k))
}

/// The domain pool, codomain pool, forward table and inverse table after the
/// first `k` picks: pick `j` takes entry `picks[j].0` out of the domain pool
/// and entry `picks[j].1` out of the codomain pool, and pairs the two.
pub open spec fn drained(picks: Seq<(usize, usize)>, k: nat) -> (
    Seq<(u8, u8)>,
    Seq<(u8, u8)>,
    Seq<(u8, u8)>,
    Seq<(u8, u8)>,
)
    decreases k,
{
    if k == 0 {
        (every_pair(), every_pair(), mirror(Seq::empty(), 0), mirror(Seq::empty(), 0))
    } else {
        let prev = drained(picks, (k - 1) as nat);
        let a = picks[k - 1].0 as int;
        let b = picks[k - 1].1 as int;
        let p = prev.0[a];
        let q = prev.1[b];
        (prev.0.remove(a), prev.1.remove(b), prev.2.update(cell(p), q), prev.3.update(cell(q), p))
    }
}

/// `f` is a bijection from the row-major positions onto the (state, byte)
/// pairs: no pair appears twice and every pair appears.
pub open spec fn bijective(f: Seq<(u8, u8)>) -> bool {
    &&& f.len() == CELLS
    &&& forall|a: int, b: int|
        0 <= a < CELLS && 0 <= b < CELLS && #[trigger] f[a] == #[trigger] f[b] ==> a == b
    &&& forall|p: (u8, u8)| #[trigger] hits(f, p)
}

/// Some entry of `f` is `p`.
pub open spec fn hits(f: Seq<(u8, u8)>, p: (u8, u8)) -> bool {
    exists|k: int| 0 <= k < CELLS && f[k] == p
}

/// What a transducer is, mathematically: a start state, the forward table
/// `(state, input) -> (next state, output)` and the inverse table
/// `(state, output) -> (previous state, input)`, both flat and row-major.
pub struct TransducerModel {
    pub start: u8,
    pub forward: Seq<(u8, u8)>,
    pub inverse: Seq<(u8, u8)>,
}

impl TransducerModel {
    /// `forward[s][b]`.
    pub open spec fn step(self, s: u8, b: u8) -> (u8, u8) {
        self.forward[cell((s, b))]
    }

    /// `inverse[s][o]`.
    pub open spec fn unstep(self, s: u8, o: u8) -> (u8, u8) {
        self.inverse[cell((s, o))]
    }

    /// The two tables are exact inverses of each other, so the forward
    /// table is a bijection on the (state, byte) pairs.
    pub open spec fn wf(self) -> bool {
        &&& self.forward.len() == CELLS
        &&& self.inverse.len() == CELLS
        &&& forall|s: u8, b: u8| #![trigger self.step(s, b)]
                self.unstep(self.step(s, b).0, self.step(s, b).1) == (s, b)
        &&& forall|s: u8, o: u8| #![trigger self.unstep(s, o)]
                self.step(self.unstep(s, o).0, self.unstep(s, o).1) == (s, o)
    }

    /// The state reached from `s` after reading `m`.
    pub open spec fn state_after(self, s: u8, m: Seq<u8>) -> u8
        decreases m.len(),
    {
        if m.len() == 0 {
            s
        } else {
            self.step(self.state_after(s, m.drop_last()), m.last()).0
        }
    }

    /// The bytes written while reading `m` from state `s`.
    pub open spec fn outputs(self, s: u8, m: Seq<u8>) -> Seq<u8>
        decreases m.len(),
    {
        if m.len() == 0 {
            Seq::empty()
        } else {
            self.outputs(s, m.drop_last()).push(
                self.step(self.state_after(s, m.drop_last()), m.last()).1,
            )
        }
    }

    /// The ciphertext of `m`: the output bytes, then the final state.
    pub open spec fn encode(self, m: Seq<u8>) -> Seq<u8> {
        self.outputs(self.start, m).push(self.state_after(self.start, m))
    }

    /// The input recovered by walking `c` back to front through the
    /// inverse table, starting in state `s`.
    pub open spec fn unwind(self, s: u8, c: Seq<u8>) -> Seq<u8>
        decreases c.len(),
    {
        if c.len() == 0 {
            Seq::empty()
        } else {
            self.unwind(self.unstep(s, c.last()).0, c.drop_last()).push(
                self.unstep(s, c.last()).1,
            )
        }
    }

    /// The plaintext of a non-empty ciphertext `c`: its last byte is the
    /// state to start the backward walk from.
    pub open spec fn decode(self, c: Seq<u8>) -> Seq<u8> {
        self.unwind(c.last(), c.drop_last())
    }
}

impl TransducerModel {
    /// One output byte per input byte.
    pub proof fn lemma_outputs_len(self, s: u8, m: Seq<u8>)
        ensures
            self.outputs(s, m).len() == m.len(),
        decreases m.len(),
    {
        if m.len() > 0 {
            self.lemma_outputs_len(s, m.drop_last());
        }
    }

    /// Walking back from where reading `m` from `s` ended recovers `m`.
    proof fn lemma_unwind_outputs(self, s: u8, m: Seq<u8>)
        requires
            self.wf(),
        ensures
            self.unwind(self.state_after(s, m), self.outputs(s, m)) == m,
        decreases m.len(),
    {
        if m.len() > 0 {
            let pre = m.drop_last();
            let mid = self.state_after(s, pre);
            self.lemma_unwind_outputs(s, pre);
            let out = self.outputs(s, m);
            assert(out.drop_last() =~= self.outputs(s, pre));
            assert(self.unstep(self.step(mid, m.last()).0, self.step(mid, m.last()).1)
                == (mid, m.last()));
            assert(pre.push(m.last()) =~= m);
        }
    }

    /// Decoding the encoding of any message gives the message back.
    pub proof fn lemma_round_trip(self, m: Seq<u8>)
        requires
            self.wf(),
        ensures
            self.decode(self.encode(m)) == m,
    {
        let c = self.encode(m);
        assert(c.drop_last() =~= self.outputs(self.start, m));
        self.lemma_unwind_outputs(self.start, m);
    }

    /// The ciphertext is one byte longer than the message, and decoding a
    /// non-empty ciphertext gives one byte less.
    pub proof fn lemma_lengths(self, m: Seq<u8>, c: Seq<u8>)
        requires
            c.len() > 0,
        ensures
            self.encode(m).len() == m.len() + 1,
            self.decode(c).len() == c.len() - 1,
    {
        self.lemma_outputs_len(self.start, m);
        self.lemma_unwind_len(c.last(), c.drop_last());
    }

    /// One recovered byte per ciphertext byte walked.
    pub proof fn lemma_unwind_len(self, s: u8, c: Seq<u8>)
        ensures
            self.unwind(s, c).len() == c.len(),
        decreases c.len(),
    {
        if c.len() > 0 {
            self.lemma_unwind_len(self.unstep(s, c.last()).0, c.drop_last());
        }
    }

    /// In a well-formed transducer the forward table is a bijection, and the
    /// inverse table undoes every forward step.
    pub proof fn lemma_bijective(self)
        requires
            self.wf(),
        ensures
            bijective(self.forward),
            forall|s: u8, b: u8| #[trigger] self.unstep(self.step(s, b).0, self.step(s, b).1)
                == (s, b),
    {
        let f = self.forward;
        assert forall|a: int, b: int|
            0 <= a < CELLS && 0 <= b < CELLS && #[trigger] f[a] == #[trigger] f[b] implies a
            == b by {
            lemma_cell_pair_at(a);
            lemma_cell_pair_at(b);
            assert(self.step(pair_at(a).0, pair_at(a).1) == f[a]);
            assert(self.step(pair_at(b).0, pair_at(b).1) == f[b]);
        }
        assert forall|p: (u8, u8)| #[trigger] hits(f, p) by {
            let q = self.unstep(p.0, p.1);
            lemma_pair_at_cell(q);
            assert(f[cell(q)] == p);
        }
        assert forall|s: u8, b: u8| #[trigger] self.unstep(self.step(s, b).0, self.step(s, b).1)
            == (s, b) by {
        }
    }

    /// Serializing a well-formed transducer and loading the bytes back gives
    /// the same transducer: same start state, same forward table and the same
    /// rebuilt inverse table, so it encodes and decodes alike.
    pub proof fn lemma_key_round_trip(self)
        requires
            self.wf(),
        ensures
            key_model(key_bytes(self)) == self,
    {
        let f = self.forward;
        let kb = key_bytes(self);
        assert forall|k: int| 0 <= k < CELLS implies #[trigger] key_table(kb)[k] == f[k] by {
            assert((2 * k) % 2 == 0 && (2 * k) / 2 == k);
            assert((2 * k + 1) % 2 == 1 && (2 * k + 1) / 2 == k);
        }
        assert(key_table(kb) =~= f);
        self.lemma_bijective();
        lemma_mirror_injective(f, 65536);
        lemma_mirror_len(f, 65536);
        assert forall|q: int| 0 <= q < CELLS implies #[trigger] mirror(f, 65536)[q]
            == self.inverse[q] by {
            lemma_cell_pair_at(q);
            let p = pair_at(q);
            let sb = self.unstep(p.0, p.1);
            lemma_pair_at_cell(sb);
            assert(f[cell(sb)] == p);
        }
        assert(mirror(f, 65536) =~= self.inverse);
    }
}

/// Mirroring keeps one entry per (state, byte) pair.
pub proof fn lemma_mirror_len(f: Seq<(u8, u8)>, n: nat)
    ensures
        mirror(f, n).len() == CELLS,
    decreases n,
{
    if n > 0 {
        lemma_mirror_len(f, (n - 1) as nat);
    }
}

/// After mirroring the first `n` entries of an injective table, the
/// position of each of those entries holds where it came from.
proof fn lemma_mirror_injective(f: Seq<(u8, u8)>, n: nat)
    requires
        bijective(f),
        n <= CELLS,
    ensures
        forall|j: int| 0 <= j < n ==> #[trigger] mirror(f, n)[cell(f[j])] == pair_at(j),
    decreases n,
{
    if n > 0 {
        lemma_mirror_injective(f, (n - 1) as nat);
        lemma_mirror_len(f, (n - 1) as nat);
        assert forall|j: int| 0 <= j < n implies #[trigger] mirror(f, n)[cell(f[j])]
            == pair_at(j) by {
            lemma_pair_at_cell(f[j]);
            lemma_pair_at_cell(f[n - 1]);
            if j < n - 1 {
                assert(f[j] != f[n - 1]);
            }
        }
    }
}

/// Loading key bytes whose forward table is a bijection gives a
/// well-formed transducer.
pub proof fn lemma_loaded_wf(b: Seq<u8>)
    requires
        bijective(key_table(b)),
    ensures
        key_model(b).wf(),
{
    let m = key_model(b);
    let f = key_table(b);
    lemma_mirror_injective(f, 65536);
    lemma_mirror_len(f, 65536);
    assert forall|s: u8, i: u8| #![trigger m.step(s, i)]
        m.unstep(m.step(s, i).0, m.step(s, i).1) == (s, i) by {
        lemma_pair_at_cell((s, i));
    }
    assert forall|s: u8, o: u8| #![trigger m.unstep(s, o)]
        m.step(m.unstep(s, o).0, m.unstep(s, o).1) == (s, o) by {
        assert(hits(f, (s, o)));
        let k = choose|k: int| 0 <= k < CELLS && f[k] == (s, o);
        lemma_cell_pair_at(k);
    }
}

/// Positions and pairs correspond one to one.
pub proof fn lemma_pair_at_cell(p: (u8, u8))
    ensures
        pair_at(cell(p)) == p,
        0 <= cell(p) < 65536,
{
    vstd::arithmetic::div_mod::lemma_fundamental_div_mod_converse(
        cell(p),
        256,
        p.0 as int,
        p.1 as int,
    );
}

/// Positions and pairs correspond one to one.
pub proof fn lemma_cell_pair_at(k: int)
    requires
        0 <= k < 65536,
    ensures
        cell(pair_at(k)) == k,
{
    vstd::arithmetic::div_mod::lemma_fundamental_div_mod(k, 256);
    assert(0 <= k / 256 < 256) by (nonlinear_arith)
        requires
            0 <= k < 65536,
    ;
}

} // verus!
