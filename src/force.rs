use vstd::prelude::*;

verus! {

/// Largest Chebyshev distance, in cells, at which two cells interact.
pub const RADIUS: u32 = 5;

/// Number of squared-distance shells: a displacement `(dx, dy)` with
/// `|dx|, |dy| <= RADIUS` has `dx*dx + dy*dy` in `0 ..= 2 * RADIUS * RADIUS`.
/// A cell never pairs with itself, so shell 0 stays empty and no pair comes
/// closer than one cell: the inverse-square weight of a shell is always finite.
pub const NUM_SHELLS: usize = 51;

/// An integer vector: the moment `m1 * m2 * (dx, dy)` of one interaction,
/// or a sum of such moments.
#[derive(Clone, Copy, Debug, PartialEq, Eq, Structural)]
pub struct Moment {
    pub x: i128,
    pub y: i128,
}

/// Two interacting cells of a grid, with the mass held by each.
#[derive(Clone, Copy, Debug, PartialEq, Eq, Structural)]
pub struct CellPair {
    pub x1: u32,
    pub y1: u32,
    pub mass1: u32,
    pub x2: u32,
    pub y2: u32,
    pub mass2: u32,
}

impl CellPair {
    pub open spec fn dx(self) -> int {
        self.x2 - self.x1
    }

    pub open spec fn dy(self) -> int {
        self.y2 - self.y1
    }

    /// The squared distance between the two cells, in cells.
    pub open spec fn shell(self) -> int {
        self.dx() * self.dx() + self.dy() * self.dy()
    }

    /// The pair's moment: the pull of the second cell on the first, before
    /// the inverse-cube factor of the distance is applied.
    pub open spec fn moment(self) -> (int, int) {
        (self.mass1 * self.mass2 * self.dx(), self.mass1 * self.mass2 * self.dy())
    }

    /// Both cells lie within `RADIUS` of each other along each axis.
    pub open spec fn is_near(self) -> bool {
        -(RADIUS as int) <= self.dx() <= RADIUS && -(RADIUS as int) <= self.dy() <= RADIUS
    }
}

/// The summed moment, over the pairs of `s` that lie in shell `k`.
pub open spec fn shell_moment(s: Seq<CellPair>, k: int) -> (int, int)
    decreases s.len(),
{
    if s.len() == 0 {
        (0, 0)
    } else {
        let rest = shell_moment(s.drop_last(), k);
        let p = s.last();
        if p.shell() == k {
            (rest.0 + p.moment().0, rest.1 + p.moment().1)
        } else {
            rest
        }
    }
}

/// Relies on rayon::join: it runs both closures, possibly in parallel, and
/// returns their two results in order.
#[verifier::external_body]
fn join<A, B, RA, RB>(oper_a: A, oper_b: B) -> (r: (RA, RB)) where
    A: FnOnce() -> RA + Send,
    B: FnOnce() -> RB + Send,
    RA: Send,
    RB: Send,
    requires
        oper_a.requires(()),
        oper_b.requires(()),
    ensures
        oper_a.ensures((), r.0),
        oper_b.ensures((), r.1),
{
    rayon::join(oper_a, oper_b)
}

/// Bound on the size of one pair's moment along either axis.
pub open spec fn max_pair_moment() -> nat {
    5 * 0xFFFF_FFFF * 0xFFFF_FFFF
}

/// Bound on a sum of `n` pair moments along either axis.
pub open spec fn cap(n: nat) -> int {
    (n * max_pair_moment()) as int
}

/// Every pair of `s` lies within `RADIUS` along each axis.
pub open spec fn all_near(s: Seq<CellPair>) -> bool {
    forall|i: int| 0 <= i < s.len() ==> #[trigger] s[i].is_near()
}

/// `v` holds, shell by shell, the summed moments of the pairs of `s`.
pub open spec fn holds_shells_of(v: Seq<Moment>, s: Seq<CellPair>) -> bool {
    &&& v.len() == NUM_SHELLS
    &&& forall|k: int|
        0 <= k < NUM_SHELLS ==> #[trigger] v[k].x == shell_moment(s, k).0 && v[k].y
            == shell_moment(s, k).1
}

/// Every entry of `v` is at most `n` pair moments in size.
pub open spec fn within_bound(v: Seq<Moment>, n: nat) -> bool {
    forall|k: int|
        0 <= k < v.len() ==> -cap(n) <= #[trigger] v[k].x <= cap(n) && -cap(n) <= v[k].y <= cap(n)
}

/// `v` holds the shell sums of `s`, each within the size that `s` allows.
pub open spec fn reduces_to(v: Seq<Moment>, s: Seq<CellPair>) -> bool {
    holds_shells_of(v, s) && within_bound(v, s.len())
}

/// Summing the moments of a concatenation shell by shell is summing the two
/// parts separately.
pub proof fn lemma_shell_moment_append(s1: Seq<CellPair>, s2: Seq<CellPair>, k: int)
    ensures
        shell_moment(s1 + s2, k).0 == shell_moment(s1, k).0 + shell_moment(s2, k).0,
        shell_moment(s1 + s2, k).1 == shell_moment(s1, k).1 + shell_moment(s2, k).1,
    decreases s2.len(),
{
    if s2.len() == 0 {
        assert(s1 + s2 =~= s1);
    } else {
        lemma_shell_moment_append(s1, s2.drop_last(), k);
        assert((s1 + s2).drop_last() =~= s1 + s2.drop_last());
    }
}

/// The pull is independent of how the pairs are split for the parallel
/// reduction: for any split point, the shell sums of the two parts add up to
/// the shell sums of the whole list.
pub proof fn lemma_partition_invariance(s: Seq<CellPair>, mid: int, k: int)
    requires
        0 <= mid <= s.len(),
    ensures
        shell_moment(s, k).0 == shell_moment(s.subrange(0, mid), k).0 + shell_moment(
            s.subrange(mid, s.len() as int),
            k,
        ).0,
        shell_moment(s, k).1 == shell_moment(s.subrange(0, mid), k).1 + shell_moment(
            s.subrange(mid, s.len() as int),
            k,
        ).1,
{
    assert(s =~= s.subrange(0, mid) + s.subrange(mid, s.len() as int));
    lemma_shell_moment_append(s.subrange(0, mid), s.subrange(mid, s.len() as int), k);
}

proof fn lemma_cap_sum(n1: nat, n2: nat)
    requires
        n1 + n2 <= 0xFFFF_FFFF,
    ensures
        cap(n1 + n2) == cap(n1) + cap(n2),
        0 <= cap(n1) && 0 <= cap(n2),
        cap(n1 + n2) <= 0xFFFF_FFFF * max_pair_moment(),
{
    assert(cap(n1 + n2) == cap(n1) + cap(n2)) by (nonlinear_arith);
    assert(0 <= cap(n1) && 0 <= cap(n2)) by (nonlinear_arith);
    assert(cap(n1 + n2) <= 0xFFFF_FFFF * max_pair_moment()) by (nonlinear_arith)
        requires
            n1 + n2 <= 0xFFFF_FFFF,
    ;
}

proof fn lemma_pair_moment_bound(p: CellPair)
    requires
        p.is_near(),
    ensures
        -max_pair_moment() <= p.moment().0 <= max_pair_moment(),
        -max_pair_moment() <= p.moment().1 <= max_pair_moment(),
{
    let m = p.mass1 * p.mass2;
    assert(0 <= m <= 0xFFFF_FFFF * 0xFFFF_FFFF) by (nonlinear_arith)
        requires
            m == p.mass1 * p.mass2,
            0 <= p.mass1 <= 0xFFFF_FFFF,
            0 <= p.mass2 <= 0xFFFF_FFFF,
    ;
    assert(-5 * m <= m * p.dx() <= 5 * m) by (nonlinear_arith)
        requires
            0 <= m,
            -5 <= p.dx() <= 5,
    ;
    assert(-5 * m <= m * p.dy() <= 5 * m) by (nonlinear_arith)
        requires
            0 <= m,
            -5 <= p.dy() <= 5,
    ;
}

proof fn lemma_shell_moment_bound(s: Seq<CellPair>, k: int)
    requires
        all_near(s),
    ensures
        -cap(s.len()) <= shell_moment(s, k).0 <= cap(s.len()),
        -cap(s.len()) <= shell_moment(s, k).1 <= cap(s.len()),
    decreases s.len(),
{
    if s.len() > 0 {
        let t = s.drop_last();
        assert(all_near(t)) by {
            assert forall|i: int| 0 <= i < t.len() implies #[trigger] t[i].is_near() by {
                assert(t[i] == s[i]);
            }
        }
        lemma_shell_moment_bound(t, k);
        assert(s.last() == s[s.len() - 1]);
        lemma_pair_moment_bound(s.last());
        assert(cap(s.len()) == cap(t.len()) + max_pair_moment())
            by (nonlinear_arith)
            requires
                s.len() == t.len() + 1,
        ;
    }
}

/// All shells zero: the pull on a cell that interacts with nothing.
pub fn zero_shells() -> (r: Vec<Moment>)
    ensures
        holds_shells_of(r@, seq![]),
        forall|k: int| 0 <= k < NUM_SHELLS ==> #[trigger] r@[k] == (Moment { x: 0, y: 0 }),
{
    let mut r: Vec<Moment> = Vec::new();
    while r.len() < NUM_SHELLS
        invariant
            r@.len() <= NUM_SHELLS,
            forall|k: int| 0 <= k < r@.len() ==> #[trigger] r@[k] == (Moment { x: 0, y: 0 }),
        decreases NUM_SHELLS - r@.len(),
    {
        r.push(Moment { x: 0, y: 0 });
    }
    r
}

/// The shells of one pair: its moment in its own shell, zero elsewhere.
fn pair_shells(p: &CellPair) -> (r: Vec<Moment>)
    requires
        p.is_near(),
    ensures
        holds_shells_of(r@, seq![*p]),
        within_bound(r@, 1),
{
    proof {
        lemma_pair_moment_bound(*p);
        assert(seq![*p].drop_last() =~= Seq::<CellPair>::empty());
    }
    let dx: i64 = p.x2 as i64 - p.x1 as i64;
    let dy: i64 = p.y2 as i64 - p.y1 as i64;
    assert(0 <= dx * dx <= 25 && 0 <= dy * dy <= 25) by (nonlinear_arith)
        requires
            -5 <= dx <= 5,
            -5 <= dy <= 5,
    ;
    let shell: usize = (dx * dx + dy * dy) as usize;
    assert(0 <= p.mass1 * p.mass2 <= 0xFFFF_FFFF * 0xFFFF_FFFF) by (nonlinear_arith)
        requires
            0 <= p.mass1 <= 0xFFFF_FFFF,
            0 <= p.mass2 <= 0xFFFF_FFFF,
    ;
    let m: i128 = p.mass1 as i128 * p.mass2 as i128;
    let mut r = zero_shells();
    assert(0 <= shell < NUM_SHELLS) by (nonlinear_arith)
        requires
            -5 <= dx <= 5,
            -5 <= dy <= 5,
            shell == dx * dx + dy * dy,
    ;
    r.set(shell, Moment { x: m * dx as i128, y: m * dy as i128 });
    proof {
        reveal_with_fuel(shell_moment, 2);
        assert forall|k: int| 0 <= k < NUM_SHELLS implies #[trigger] r@[k].x == shell_moment(seq![*p], k).0 && r@[k].y
            == shell_moment(seq![*p], k).1 by {
            assert(seq![*p].last() == *p);
        }
    }
    r
}

/// Adds `b` to `a`, shell by shell.
fn add_shells(a: Vec<Moment>, b: &Vec<Moment>, Ghost(s1): Ghost<Seq<CellPair>>, Ghost(s2): Ghost<Seq<CellPair>>) -> (r: Vec<Moment>)
    requires
        holds_shells_of(a@, s1),
        holds_shells_of(b@, s2),
        within_bound(a@, s1.len()),
        within_bound(b@, s2.len()),
        s1.len() + s2.len() <= 0xFFFF_FFFF,
    ensures
        holds_shells_of(r@, s1 + s2),
        within_bound(r@, s1.len() + s2.len()),
{
    let mut r = a;
    let mut k: usize = 0;
    while k < NUM_SHELLS
        invariant
            0 <= k <= NUM_SHELLS,
            r@.len() == NUM_SHELLS,
            holds_shells_of(b@, s2),
            within_bound(b@, s2.len()),
            s1.len() + s2.len() <= 0xFFFF_FFFF,
            forall|j: int| 0 <= j < k ==> #[trigger] r@[j].x == shell_moment(s1 + s2, j).0 && r@[j].y
                == shell_moment(s1 + s2, j).1,
            forall|j: int| k <= j < NUM_SHELLS ==> #[trigger] r@[j] == a@[j],
            forall|j: int|
                0 <= j < k ==> -cap(s1.len() + s2.len()) <= #[trigger] r@[j].x <= cap(s1.len() + s2.len())
                    && -cap(s1.len() + s2.len()) <= r@[j].y <= cap(s1.len() + s2.len()),
            holds_shells_of(a@, s1),
            within_bound(a@, s1.len()),
        decreases NUM_SHELLS - k,
    {
        proof {
            lemma_shell_moment_append(s1, s2, k as int);
            lemma_cap_sum(s1.len(), s2.len());
        }
        assert(r@[k as int] == a@[k as int]);
        let cur = r[k];
        let sum = Moment { x: cur.x + b[k].x, y: cur.y + b[k].y };
        r.set(k, sum);
        k = k + 1;
    }
    r
}

/// The summed moments of `pairs`, shell by shell, computed by splitting the
/// slice in halves and reducing the halves in parallel.
pub fn divide_and_conquer(pairs: &[CellPair]) -> (r: Vec<Moment>)
    requires
        pairs@.len() >= 1,
        pairs@.len() <= 0xFFFF_FFFF,
        all_near(pairs@),
    ensures
        holds_shells_of(r@, pairs@),
        within_bound(r@, pairs@.len()),
    decreases pairs@.len(),
{
    if pairs.len() >= 2 {
        let mid = pairs.len() / 2;
        let (lo, hi) = pairs.split_at(mid);
        proof {
            assert(pairs@ =~= lo@ + hi@);
            assert(all_near(lo@)) by {
                assert forall|i: int| 0 <= i < lo@.len() implies #[trigger] lo@[i].is_near() by {
                    assert(lo@[i] == pairs@[i]);
                }
            }
            assert(all_near(hi@)) by {
                assert forall|i: int| 0 <= i < hi@.len() implies #[trigger] hi@[i].is_near() by {
                    assert(hi@[i] == pairs@[i + mid]);
                }
            }
        }
        let (f1, f2) = join(
            move || -> (r: Vec<Moment>)
                requires
                    lo@.len() >= 1,
                    lo@.len() <= 0xFFFF_FFFF,
                    all_near(lo@),
                ensures
                    reduces_to(r@, lo@)
                { divide_and_conquer(lo) },
            move || -> (r: Vec<Moment>)
                requires
                    hi@.len() >= 1,
                    hi@.len() <= 0xFFFF_FFFF,
                    all_near(hi@),
                ensures
                    reduces_to(r@, hi@)
                { divide_and_conquer(hi) },
        );
        add_shells(f1, &f2, Ghost(lo@), Ghost(hi@))
    } else {
        proof {
            assert(pairs@ =~= seq![pairs@[0]]);
            assert(pairs@[0].is_near());
        }
        pair_shells(&pairs[0])
    }
}

} // verus!
