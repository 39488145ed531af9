use crate::model::{
    cell, drained, every_pair, key_bytes, key_model, key_table, lemma_cell_pair_at,
    lemma_mirror_len, lemma_pair_at_cell, mirror, pair_at, TransducerModel, CELLS, KEY_LEN, WIDTH,
};
use rand::distributions::{Distribution, Uniform};
use vstd::prelude::*;

verus! {

/// The ways an operation of this library can fail.
#[derive(Debug, Clone, Copy, PartialEq, Eq, Structural)]
pub enum TransducerError {
    /// A named resource could not be read or written.
    ResourceUnavailable,
    /// A key is shorter than `KEY_LEN` bytes.
    MalformedKey,
    /// A ciphertext has no trailing state byte.
    EmptyCiphertext,
}

/// A finite-state transducer used as a cipher key.
pub struct Transducer {
    /// `states[cell((s, b))]` is `(next state, output)`.
    states: Vec<(u8, u8)>,
    /// `inverse[cell((s, o))]` is `(previous state, input)`.
    inverse: Vec<(u8, u8)>,
    /// The state every message starts in.
    start: u8,
}

/// Relies on rand's `Uniform::from(0..n)`, sampled with `thread_rng`: a value
/// drawn from `0..n`. `Uniform::new` panics unless `0 < n`.
#[verifier::external_body]
fn random_below(n: usize) -> (r: usize)
    requires
        0 < n,
    ensures
        r < n,
{
    Uniform::from(0..n).sample(&mut rand::thread_rng())
}

/// Every (state, byte) pair once, in row-major order.
fn all_pairs() -> (v: Vec<(u8, u8)>)
    ensures
        v@ == every_pair(),
{
    let mut v: Vec<(u8, u8)> = Vec::with_capacity(CELLS);
    let mut i: usize = 0;
    while i < WIDTH
        invariant
            i <= WIDTH,
            v@ =~= Seq::new((i * 256) as nat, |k: int| pair_at(k)),
        decreases WIDTH - i,
    {
        let mut j: usize = 0;
        while j < WIDTH
            invariant
                i < WIDTH,
                j <= WIDTH,
                v@ =~= Seq::new((i * 256 + j) as nat, |k: int| pair_at(k)),
            decreases WIDTH - j,
        {
            proof {
                lemma_pair_at_cell((i as u8, j as u8));
            }
            v.push((i as u8, j as u8));
            j = j + 1;
        }
        i = i + 1;
    }
    v
}

/// A table with `(0, 0)` in every entry.
fn blank_table() -> (t: Vec<(u8, u8)>)
    ensures
        t@ == mirror(Seq::empty(), 0),
{
    let mut t: Vec<(u8, u8)> = Vec::with_capacity(CELLS);
    let mut k: usize = 0;
    while k < CELLS
        invariant
            k <= CELLS,
            t@ =~= Seq::new(k as nat, |j: int| (0u8, 0u8)),
        decreases CELLS - k,
    {
        t.push((0u8, 0u8));
        k = k + 1;
    }
    t
}

impl View for Transducer {
    type V = TransducerModel;

    closed spec fn view(&self) -> TransducerModel {
        TransducerModel { start: self.start, forward: self.states@, inverse: self.inverse@ }
    }
}

impl Transducer {
    #[verifier::type_invariant]
    spec fn sized(self) -> bool {
        self.states@.len() == CELLS && self.inverse@.len() == CELLS
    }

    /// Builds a random transducer: a uniformly drawn start state, and every
    /// (state, input) pair matched with a distinct (state, output) pair by
    /// drawing one of each from two pools until both are empty.
    pub fn spawn() -> (t: Transducer)
        ensures
            t@.wf(),
    {
        let start: u8 = random_below(WIDTH) as u8;
        let mut picks: Vec<(usize, usize)> = Vec::with_capacity(CELLS);
        let mut k: usize = 0;
        while k < CELLS
            invariant
                k <= CELLS,
                picks@.len() == k,
                forall|j: int| 0 <= j < k ==> #[trigger] picks@[j].0 < CELLS - j
                    && picks@[j].1 < CELLS - j,
            decreases CELLS - k,
        {
            let state_i: usize = random_below(CELLS - k);
            let inverse_i: usize = random_below(CELLS - k);
            picks.push((state_i, inverse_i));
            k = k + 1;
        }
        Self::pair_pools(start, &picks)
    }

    /// Builds the transducer that starts in `start` and whose tables come from
    /// draining the two pools of all (state, byte) pairs: at step `k`, entry
    /// `picks[k].0` of the domain pool is paired with entry `picks[k].1` of the
    /// codomain pool, and both are taken out.
    pub fn pair_pools(start: u8, picks: &Vec<(usize, usize)>) -> (t: Transducer)
        requires
            picks@.len() == CELLS,
            forall|k: int| 0 <= k < CELLS ==> #[trigger] picks@[k].0 < CELLS - k
                && picks@[k].1 < CELLS - k,
        ensures
            t@.start == start,
            t@.forward == drained(picks@, CELLS as nat).2,
            t@.inverse == drained(picks@, CELLS as nat).3,
            t@.wf(),
    {
        let mut state_list: Vec<(u8, u8)> = all_pairs();
        let mut inverse_list: Vec<(u8, u8)> = all_pairs();
        let mut states: Vec<(u8, u8)> = blank_table();
        let mut inverses: Vec<(u8, u8)> = blank_table();
        proof {
            lemma_all_pairs();
            lemma_mirror_len(Seq::empty(), 0);
        }
        let mut k: usize = 0;
        while k < CELLS
            invariant
                k <= CELLS,
                picks@.len() == CELLS,
                forall|j: int| 0 <= j < CELLS ==> #[trigger] picks@[j].0 < CELLS - j
                    && picks@[j].1 < CELLS - j,
                (state_list@, inverse_list@, states@, inverses@) == drained(picks@, k as nat),
                state_list@.len() == CELLS - k,
                state_list@.len() == inverse_list@.len(),
                state_list@.no_duplicates(),
                inverse_list@.no_duplicates(),
                states@.len() == CELLS,
                inverses@.len() == CELLS,
                forall|p: (u8, u8)| #![trigger state_list@.contains(p)]
                    !state_list@.contains(p) ==> {
                        &&& !inverse_list@.contains(states@[cell(p)])
                        &&& inverses@[cell(states@[cell(p)])] == p
                    },
                forall|q: (u8, u8)| #![trigger inverse_list@.contains(q)]
                    !inverse_list@.contains(q) ==> {
                        &&& !state_list@.contains(inverses@[cell(q)])
                        &&& states@[cell(inverses@[cell(q)])] == q
                    },
            decreases CELLS - k,
        {
            let (state_i, inverse_i) = picks[k];
            proof {
                assert(picks@[k as int].0 < CELLS - k);
            }
            let ghost old_sl = state_list@;
            let ghost old_il = inverse_list@;
            let ghost old_states = states@;
            let ghost old_inverses = inverses@;
            let (state, input) = state_list.remove(state_i);
            let (inverse, output) = inverse_list.remove(inverse_i);
            proof {
                lemma_remove_contains(old_sl, state_i as int);
                lemma_remove_contains(old_il, inverse_i as int);
                lemma_pair_at_cell((state, input));
                lemma_pair_at_cell((inverse, output));
            }
            states.set(state as usize * WIDTH + input as usize, (inverse, output));
            inverses.set(inverse as usize * WIDTH + output as usize, (state, input));
            proof {
                let d = (state, input);
                let c = (inverse, output);
                assert forall|p: (u8, u8)| !state_list@.contains(p) implies {
                    &&& !inverse_list@.contains(states@[cell(p)])
                    &&& inverses@[cell(states@[cell(p)])] == p
                } by {
                    lemma_pair_at_cell(p);
                    if p != d {
                        assert(!old_sl.contains(p));
                        assert(cell(p) != cell(d));
                        let e = old_states[cell(p)];
                        assert(!old_il.contains(e));
                        assert(e != c);
                        lemma_pair_at_cell(e);
                        assert(cell(e) != cell(c));
                    }
                }
                assert forall|q: (u8, u8)| !inverse_list@.contains(q) implies {
                    &&& !state_list@.contains(inverses@[cell(q)])
                    &&& states@[cell(inverses@[cell(q)])] == q
                } by {
                    lemma_pair_at_cell(q);
                    if q != c {
                        assert(!old_il.contains(q));
                        assert(cell(q) != cell(c));
                        let e = old_inverses[cell(q)];
                        assert(!old_sl.contains(e));
                        assert(e != d);
                        lemma_pair_at_cell(e);
                        assert(cell(e) != cell(d));
                    }
                }
            }
            k = k + 1;
            proof {
                let prev = drained(picks@, (k - 1) as nat);
                assert(prev.0 == old_sl && prev.1 == old_il);
                assert(prev.2 == old_states && prev.3 == old_inverses);
            }
        }
        let t = Transducer { states, inverse: inverses, start };
        proof {
            assert(state_list@ =~= Seq::empty());
            assert(inverse_list@ =~= Seq::empty());
            assert forall|s: u8, b: u8| #![trigger t@.step(s, b)]
                t@.unstep(t@.step(s, b).0, t@.step(s, b).1) == (s, b) by {
                assert(!state_list@.contains((s, b)));
            }
            assert forall|s: u8, o: u8| #![trigger t@.unstep(s, o)]
                t@.step(t@.unstep(s, o).0, t@.unstep(s, o).1) == (s, o) by {
                assert(!inverse_list@.contains((s, o)));
            }
        }
        t
    }

    /// Encodes `message`: each byte goes through the forward table from the
    /// current state, and the final state is appended.
    pub fn encrypt(&self, message: &Vec<u8>) -> (code: Vec<u8>)
        ensures
            code@ == self@.encode(message@),
            code@.len() == message@.len() + 1,
    {
        proof { use_type_invariant(self); }
        let mut code: Vec<u8> = Vec::with_capacity(message.len());
        let mut state: u8 = self.start;
        let mut k: usize = 0;
        while k < message.len()
            invariant
                k <= message@.len(),
                self.states@.len() == CELLS,
                code@ == self@.outputs(self@.start, message@.take(k as int)),
                state == self@.state_after(self@.start, message@.take(k as int)),
            decreases message@.len() - k,
        {
            let b: u8 = message[k];
            let (next, change) = self.states[state as usize * WIDTH + b as usize];
            proof {
                let pre = message@.take(k as int + 1);
                assert(pre.drop_last() =~= message@.take(k as int));
                assert(pre.last() == b);
            }
            code.push(change);
            state = next;
            k = k + 1;
        }
        proof {
            assert(message@.take(k as int) =~= message@);
            self@.lemma_outputs_len(self@.start, message@);
        }
        code.push(state);
        code
    }

    /// Decodes `message`: its last byte is the final state; the other bytes
    /// are walked back to front through the inverse table.
    pub fn decrypt(&self, message: &Vec<u8>) -> (r: Result<Vec<u8>, TransducerError>)
        ensures
            message@.len() == 0 <==> r == Err::<Vec<u8>, TransducerError>(
                TransducerError::EmptyCiphertext,
            ),
            message@.len() > 0 ==> r is Ok && r->Ok_0@ == self@.decode(message@),
            r is Ok ==> r->Ok_0@.len() == message@.len() - 1,
    {
        proof { use_type_invariant(self); }
        let n: usize = message.len();
        if n == 0 {
            return Err(TransducerError::EmptyCiphertext);
        }
        let mut source: Vec<u8> = vec![0u8; n - 1];
        let mut state: u8 = message[n - 1];
        let mut k: usize = n - 1;
        let ghost body = message@.drop_last();
        proof {
            assert(body.take(k as int) =~= body);
            assert(self@.unwind(state, body) + source@.subrange(k as int, n - 1)
                =~= self@.unwind(state, body));
        }
        while k > 0
            invariant
                k <= n - 1,
                n == message@.len(),
                body == message@.drop_last(),
                source@.len() == n - 1,
                self.inverse@.len() == CELLS,
                self@.decode(message@) == self@.unwind(state, body.take(k as int))
                    + source@.subrange(k as int, n - 1),
            decreases k,
        {
            k = k - 1;
            let b: u8 = message[k];
            let (prev, original) = self.inverse[state as usize * WIDTH + b as usize];
            proof {
                let pre = body.take(k as int + 1);
                assert(pre.drop_last() =~= body.take(k as int));
                assert(pre.last() == b);
            }
            let ghost old_source = source@;
            source.set(k, original);
            proof {
                assert(self@.unwind(prev, body.take(k as int)).push(original)
                    + old_source.subrange(k as int + 1, n - 1)
                    =~= self@.unwind(prev, body.take(k as int))
                    + source@.subrange(k as int, n - 1));
            }
            state = prev;
        }
        proof {
            assert(body.take(0) =~= Seq::<u8>::empty());
            assert(source@.subrange(0, n - 1) =~= source@);
            assert(self@.decode(message@) =~= source@);
        }
        Ok(source)
    }

    /// Serializes the transducer: the start state, then the forward table.
    pub fn to_bytes(&self) -> (bytes: Vec<u8>)
        ensures
            bytes@ == key_bytes(self@),
            bytes@.len() == KEY_LEN,
    {
        proof { use_type_invariant(self); }
        let mut bytes: Vec<u8> = Vec::with_capacity(KEY_LEN);
        bytes.push(self.start);
        let mut k: usize = 0;
        while k < CELLS
            invariant
                k <= CELLS,
                self.states@.len() == CELLS,
                bytes@.len() == 1 + 2 * k,
                forall|n: int| 0 <= n < 1 + 2 * k ==> bytes@[n] == key_bytes(self@)[n],
            decreases CELLS - k,
        {
            let (state, change) = self.states[k];
            bytes.push(state);
            bytes.push(change);
            k = k + 1;
        }
        proof {
            assert(bytes@ =~= key_bytes(self@));
        }
        bytes
    }

    /// Loads a transducer from key bytes, rebuilding the inverse table by
    /// mirroring each forward entry as it is read. Bytes past `KEY_LEN` are
    /// ignored.
    pub fn from_bytes(b: &Vec<u8>) -> (r: Result<Transducer, TransducerError>)
        ensures
            b@.len() < KEY_LEN <==> r == Err::<Transducer, TransducerError>(
                TransducerError::MalformedKey,
            ),
            b@.len() >= KEY_LEN ==> r is Ok && r->Ok_0@ == key_model(b@),
    {
        if b.len() < KEY_LEN {
            return Err(TransducerError::MalformedKey);
        }
        let mut states: Vec<(u8, u8)> = blank_table();
        let mut inverse: Vec<(u8, u8)> = blank_table();
        let start: u8 = b[0];
        let ghost table = key_table(b@);
        proof {
            assert(inverse@ =~= mirror(table, 0));
            assert(states@.len() == CELLS);
        }
        let mut k: usize = 0;
        while k < CELLS
            invariant
                k <= CELLS,
                b@.len() >= KEY_LEN,
                table == key_table(b@),
                states@.len() == CELLS,
                inverse@ == mirror(table, k as nat),
                forall|j: int| 0 <= j < k ==> states@[j] == table[j],
            decreases CELLS - k,
        {
            let next: u8 = b[1 + 2 * k];
            let output: u8 = b[2 + 2 * k];
            states.set(k, (next, output));
            proof {
                lemma_mirror_len(table, k as nat);
            }
            inverse.set(next as usize * WIDTH + output as usize, ((k / WIDTH) as u8, (k % WIDTH) as u8));
            k = k + 1;
        }
        proof {
            lemma_mirror_len(table, 65536);
            assert(states@ =~= table);
        }
        Ok(Transducer { states, inverse, start })
    }
}

/// The list of all pairs holds each pair exactly once.
proof fn lemma_all_pairs()
    ensures
        every_pair().no_duplicates(),
        forall|p: (u8, u8)| #[trigger] every_pair().contains(p),
{
    let all = every_pair();
    assert forall|a: int, b: int| 0 <= a < all.len() && 0 <= b < all.len() && a != b implies all[a]
        != all[b] by {
        lemma_cell_pair_at(a);
        lemma_cell_pair_at(b);
    }
    assert forall|p: (u8, u8)| #[trigger] all.contains(p) by {
        lemma_pair_at_cell(p);
        assert(all[cell(p)] == p);
    }
}

/// Taking position `i` out of a list without duplicates removes exactly
/// the element there.
proof fn lemma_remove_contains(s: Seq<(u8, u8)>, i: int)
    requires
        s.no_duplicates(),
        0 <= i < s.len(),
    ensures
        s.remove(i).no_duplicates(),
        forall|x: (u8, u8)| #[trigger] s.remove(i).contains(x) <==> (s.contains(x) && x != s[i]),
{
    let r = s.remove(i);
    assert forall|x: (u8, u8)| #[trigger] r.contains(x) <==> (s.contains(x) && x != s[i]) by {
        if r.contains(x) {
            let j = choose|j: int| 0 <= j < r.len() && r[j] == x;
            if j < i {
                assert(s[j] == x);
            } else {
                assert(s[j + 1] == x);
            }
        }
        if s.contains(x) && x != s[i] {
            let j = choose|j: int| 0 <= j < s.len() && s[j] == x;
            if j < i {
                assert(r[j] == x);
            } else {
                assert(r[j - 1] == x);
            }
        }
    }
    assert forall|a: int, b: int| 0 <= a < r.len() && 0 <= b < r.len() && a != b implies r[a]
        != r[b] by {
        let a1 = if a < i { a } else { a + 1 };
        let b1 = if b < i { b } else { b + 1 };
        assert(r[a] == s[a1] && r[b] == s[b1]);
    }
}

} // verus!
