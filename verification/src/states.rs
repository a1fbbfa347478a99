//! The Towers-of-Hanoi configuration: pegs of disks, each listed bottom to top.
use vstd::prelude::*;
use crate::problem::{DomainState, cost_sum, add_cost};

verus! {

/// Why a disk could not be taken or placed.
#[derive(Clone, Copy, Debug, PartialEq, Eq, Structural)]
pub enum MoveError {
    /// The peg to take from holds no disk.
    EmptySourcePeg,
    /// The peg to place on has a top disk that is not larger than the disk.
    DestinationTooSmall,
    /// A peg index is outside the pegs of the state.
    InvalidPegIndex,
}

/// Whether a peg lists strictly shrinking disks from bottom to top.
pub open spec fn descending(rod: Seq<u32>) -> bool {
    forall|i: int, j: int| 0 <= i < j < rod.len() ==> rod[i] > rod[j]
}

/// Every disk of every peg, peg after peg.
pub open spec fn all_disks(pegs: Seq<Seq<u32>>) -> Seq<u32> {
    pegs.flatten()
}

/// Whether every peg is descending and no disk occurs twice.
pub open spec fn pegs_valid(pegs: Seq<Seq<u32>>) -> bool {
    &&& forall|n: int| 0 <= n < pegs.len() ==> descending(#[trigger] pegs[n])
    &&& all_disks(pegs).no_duplicates()
}

/// Whether the disks at any two different places of the pegs differ.
pub open spec fn disks_apart(pegs: Seq<Seq<u32>>) -> bool {
    forall|n1: int, i: int, n2: int, j: int|
        0 <= n1 < pegs.len() && 0 <= i < pegs[n1].len() && 0 <= n2 < pegs.len() && 0 <= j
            < pegs[n2].len() && (n1 != n2 || i != j) ==> #[trigger] pegs[n1][i]
            != #[trigger] pegs[n2][j]
}

/// Whether disk `d` sits on some peg.
pub open spec fn holds_disk(pegs: Seq<Seq<u32>>, d: u32) -> bool {
    exists|n: int, i: int| 0 <= n < pegs.len() && 0 <= i < pegs[n].len() && #[trigger] pegs[n][i] == d
}

/// The disks listed peg after peg are the disks that sit on some peg.
pub proof fn lemma_all_disks_members(pegs: Seq<Seq<u32>>, d: u32)
    ensures
        all_disks(pegs).contains(d) <==> holds_disk(pegs, d),
    decreases pegs.len(),
{
    if pegs.len() > 0 {
        let front = pegs.drop_last();
        let last = pegs.last();
        assert(pegs =~= front.push(last));
        front.lemma_flatten_push(last);
        lemma_all_disks_members(front, d);
        let a = front.flatten();
        let flat = a + last;
        if flat.contains(d) {
            let p = choose|p: int| 0 <= p < flat.len() && flat[p] == d;
            if p < a.len() {
                assert(a[p] == d);
                let (n, i) = choose|n: int, i: int|
                    0 <= n < front.len() && 0 <= i < front[n].len() && #[trigger] front[n][i] == d;
                assert(pegs[n][i] == d);
            } else {
                assert(pegs[pegs.len() - 1][p - a.len()] == d);
            }
        }
        if holds_disk(pegs, d) {
            let (n, i) = choose|n: int, i: int|
                0 <= n < pegs.len() && 0 <= i < pegs[n].len() && #[trigger] pegs[n][i] == d;
            if n < front.len() {
                assert(front[n][i] == d);
                let p = choose|p: int| 0 <= p < a.len() && a[p] == d;
                assert(flat[p] == d);
            } else {
                assert(flat[a.len() + i] == d);
            }
        }
    }
}

/// No disk occurs twice in the list of all disks exactly when the disks at
/// any two different places differ.
pub proof fn lemma_no_duplicates_means_apart(pegs: Seq<Seq<u32>>)
    ensures
        all_disks(pegs).no_duplicates() <==> disks_apart(pegs),
    decreases pegs.len(),
{
    if pegs.len() > 0 {
        let front = pegs.drop_last();
        let last = pegs.last();
        let top = pegs.len() - 1;
        assert(pegs =~= front.push(last));
        front.lemma_flatten_push(last);
        lemma_no_duplicates_means_apart(front);
        let a = front.flatten();
        let flat = a + last;
        if disks_apart(pegs) {
            assert(disks_apart(front)) by {
                assert forall|n1: int, i: int, n2: int, j: int|
                    0 <= n1 < front.len() && 0 <= i < front[n1].len() && 0 <= n2 < front.len() && 0
                        <= j < front[n2].len() && (n1 != n2 || i != j) implies #[trigger] front[n1][i]
                    != #[trigger] front[n2][j] by {
                    assert(pegs[n1][i] != pegs[n2][j]);
                }
            }
            assert(last.no_duplicates()) by {
                assert forall|i: int, j: int| 0 <= i < last.len() && 0 <= j < last.len() && i
                    != j implies last[i] != last[j] by {
                    assert(pegs[top][i] != pegs[top][j]);
                }
            }
            assert forall|p: int, j: int| 0 <= p < a.len() && 0 <= j < last.len() implies a[p]
                != last[j] by {
                lemma_all_disks_members(front, a[p]);
                assert(a.contains(a[p]));
                let (n, i) = choose|n: int, i: int|
                    0 <= n < front.len() && 0 <= i < front[n].len() && #[trigger] front[n][i]
                        == a[p];
                assert(pegs[n][i] != pegs[top][j]);
            }
            vstd::seq_lib::lemma_no_dup_in_concat(a, last);
        }
        if flat.no_duplicates() {
            assert(a.no_duplicates()) by {
                assert forall|i: int, j: int| 0 <= i < a.len() && 0 <= j < a.len() && i
                    != j implies a[i] != a[j] by {
                    assert(flat[i] != flat[j]);
                }
            }
            assert forall|n1: int, i: int, n2: int, j: int|
                0 <= n1 < pegs.len() && 0 <= i < pegs[n1].len() && 0 <= n2 < pegs.len() && 0 <= j
                    < pegs[n2].len() && (n1 != n2 || i != j) implies #[trigger] pegs[n1][i]
                != #[trigger] pegs[n2][j] by {
                if n1 < top && n2 < top {
                    assert(front[n1][i] != front[n2][j]);
                } else if n1 == top && n2 == top {
                    assert(flat[a.len() + i] != flat[a.len() + j]);
                } else if n1 < top {
                    assert(front[n1][i] == pegs[n1][i]);
                    lemma_all_disks_members(front, pegs[n1][i]);
                    let p = choose|p: int| 0 <= p < a.len() && a[p] == pegs[n1][i];
                    assert(flat[p] != flat[a.len() + j]);
                } else {
                    assert(front[n2][j] == pegs[n2][j]);
                    lemma_all_disks_members(front, pegs[n2][j]);
                    let p = choose|p: int| 0 <= p < a.len() && a[p] == pegs[n2][j];
                    assert(flat[p] != flat[a.len() + i]);
                }
            }
        }
    }
}

/// The top disk of peg `n` of the pegs; none where that peg is empty.
pub open spec fn top_disk(pegs: Seq<Seq<u32>>, n: int) -> Option<u32>
    recommends
        0 <= n < pegs.len(),
{
    if 0 <= n < pegs.len() && pegs[n].len() > 0 {
        Some(pegs[n].last())
    } else {
        None
    }
}

/// Whether `disk` may be placed on peg `n` of the pegs: the peg has no top
/// disk, or a larger one.
pub open spec fn fits(pegs: Seq<Seq<u32>>, n: int, disk: u32) -> bool
    recommends
        0 <= n < pegs.len(),
{
    match top_disk(pegs, n) {
        Some(top) => disk < top,
        None => true,
    }
}

/// The height of the tallest of the first `n` pegs.
pub open spec fn tallest(pegs: Seq<Seq<u32>>, n: int) -> nat
    decreases n,
{
    if n <= 0 {
        0
    } else {
        let rest = tallest(pegs, n - 1);
        if pegs[n - 1].len() > rest {
            pegs[n - 1].len()
        } else {
            rest
        }
    }
}

/// The disk that sits on peg `n` at height `h`, counted from the bottom.
pub open spec fn disk_at(pegs: Seq<Seq<u32>>, n: int, h: int) -> Option<u32> {
    if 0 <= n < pegs.len() && 0 <= h < pegs[n].len() {
        Some(pegs[n][h])
    } else {
        None
    }
}

/// The pegs with the top disk of peg `n` taken away.
pub open spec fn without_top(pegs: Seq<Seq<u32>>, n: int) -> Seq<Seq<u32>> {
    pegs.update(n, pegs[n].drop_last())
}

/// The pegs with `disk` placed on peg `n`.
pub open spec fn with_disk(pegs: Seq<Seq<u32>>, n: int, disk: u32) -> Seq<Seq<u32>> {
    pegs.update(n, pegs[n].push(disk))
}

/// A puzzle configuration together with the cost charged to it so far.
///
/// The view is the peg contents; the cost is bookkeeping and takes no part in
/// deciding whether two states are the same configuration.
#[derive(Debug)]
pub struct States {
    pub rods: Vec<Vec<u32>>,
    pub acc_cost: u64,
}

impl View for States {
    type V = Seq<Seq<u32>>;

    open spec fn view(&self) -> Seq<Seq<u32>> {
        Seq::new(self.rods.len() as nat, |i: int| self.rods[i]@)
    }
}

/// Copies a peg.
pub fn copy_rod(rod: &Vec<u32>) -> (r: Vec<u32>)
    ensures
        r@ == rod@,
{
    let mut out: Vec<u32> = Vec::new();
    let mut i: usize = 0;
    while i < rod.len()
        invariant
            i <= rod.len(),
            out@ == rod@.take(i as int),
        decreases rod.len() - i,
    {
        out.push(rod[i]);
        i += 1;
        assert(out@ =~= rod@.take(i as int));
    }
    assert(rod@.take(rod.len() as int) =~= rod@);
    out
}

/// Decides whether two pegs hold the same disks in the same order.
pub fn same_rod(a: &Vec<u32>, b: &Vec<u32>) -> (r: bool)
    ensures
        r == (a@ == b@),
{
    if a.len() != b.len() {
        return false;
    }
    let mut i: usize = 0;
    while i < a.len()
        invariant
            i <= a.len(),
            a.len() == b.len(),
            forall|k: int| 0 <= k < i ==> a@[k] == b@[k],
        decreases a.len() - i,
    {
        if a[i] != b[i] {
            return false;
        }
        i += 1;
    }
    assert(a@ =~= b@);
    true
}

/// Decides whether a peg lists strictly shrinking disks from bottom to top.
pub fn is_descending(rod: &Vec<u32>) -> (r: bool)
    ensures
        r == descending(rod@),
{
    let mut i: usize = 1;
    while i < rod.len()
        invariant
            1 <= i,
            forall|a: int, b: int| 0 <= a < b < i && b < rod.len() ==> rod@[a] > rod@[b],
        decreases rod.len() - i,
    {
        if rod[i - 1] <= rod[i] {
            return false;
        }
        i += 1;
    }
    true
}

/// Decides whether no disk occurs twice in a list.
pub fn has_no_duplicates(disks: &Vec<u32>) -> (r: bool)
    ensures
        r == disks@.no_duplicates(),
{
    let mut i: usize = 0;
    while i < disks.len()
        invariant
            i <= disks.len(),
            forall|a: int, b: int| 0 <= a < i && 0 <= b < disks.len() && a != b ==> disks@[a] != disks@[b],
        decreases disks.len() - i,
    {
        let mut j: usize = 0;
        while j < disks.len()
            invariant
                i < disks.len(),
                j <= disks.len(),
                forall|b: int| 0 <= b < j && i != b ==> disks@[i as int] != disks@[b],
            decreases disks.len() - j,
        {
            if i != j && disks[i] == disks[j] {
                return false;
            }
            j += 1;
        }
        i += 1;
    }
    true
}

impl States {
    /// Whether every peg is descending and no disk occurs twice.
    pub open spec fn valid(&self) -> bool {
        pegs_valid(self@)
    }

    /// Builds the three-peg state with the given pegs and cost.
    pub fn new(rod1: Vec<u32>, rod2: Vec<u32>, rod3: Vec<u32>, acc_cost: u64) -> (r: Self)
        requires
            descending(rod1@),
            descending(rod2@),
            descending(rod3@),
            all_disks(seq![rod1@, rod2@, rod3@]).no_duplicates(),
        ensures
            r@ == seq![rod1@, rod2@, rod3@],
            r.acc_cost == acc_cost,
            r.valid(),
    {
        let mut rods: Vec<Vec<u32>> = Vec::new();
        rods.push(rod1);
        rods.push(rod2);
        rods.push(rod3);
        let r = States { rods, acc_cost };
        assert(r@ =~= seq![rod1@, rod2@, rod3@]);
        r
    }

    /// Copies the state, cost included.
    pub fn duplicate(&self) -> (r: Self)
        ensures
            r@ == self@,
            r.acc_cost == self.acc_cost,
    {
        let mut rods: Vec<Vec<u32>> = Vec::new();
        let mut i: usize = 0;
        while i < self.rods.len()
            invariant
                i <= self.rods.len(),
                rods.len() == i,
                forall|k: int| 0 <= k < i ==> rods[k]@ == self.rods[k]@,
            decreases self.rods.len() - i,
        {
            rods.push(copy_rod(&self.rods[i]));
            i += 1;
        }
        let r = States { rods, acc_cost: self.acc_cost };
        assert(r@ =~= self@);
        r
    }

    /// Decides whether no disk occurs twice over all pegs.
    pub fn check_uniqueness(&self) -> (r: bool)
        ensures
            r == all_disks(self@).no_duplicates(),
    {
        let mut all: Vec<u32> = Vec::new();
        let mut n: usize = 0;
        proof {
            assert(self@.take(0) =~= Seq::<Seq<u32>>::empty());
        }
        while n < self.rods.len()
            invariant
                n <= self.rods.len(),
                all@ == self@.take(n as int).flatten(),
            decreases self.rods.len() - n,
        {
            let mut k: usize = 0;
            let rod = &self.rods[n];
            let ghost before = all@;
            while k < rod.len()
                invariant
                    k <= rod.len(),
                    all@ == before + rod@.take(k as int),
                decreases rod.len() - k,
            {
                all.push(rod[k]);
                k += 1;
                assert(all@ =~= before + rod@.take(k as int));
            }
            proof {
                assert(rod@.take(rod.len() as int) =~= rod@);
                let pre = self@.take(n as int);
                assert(self@.take(n + 1) =~= pre.push(rod@));
                pre.lemma_flatten_push(rod@);
            }
            n += 1;
        }
        assert(self@.take(self.rods.len() as int) =~= self@);
        has_no_duplicates(&all)
    }

    /// Decides whether every peg is descending from bottom to top.
    pub fn check_sortness(&self) -> (r: bool)
        ensures
            r == (forall|n: int| 0 <= n < self@.len() ==> descending(#[trigger] self@[n])),
    {
        let mut n: usize = 0;
        while n < self.rods.len()
            invariant
                n <= self.rods.len(),
                forall|m: int| 0 <= m < n ==> descending(#[trigger] self@[m]),
            decreases self.rods.len() - n,
        {
            if !is_descending(&self.rods[n]) {
                assert(!descending(self@[n as int]));
                return false;
            }
            n += 1;
        }
        true
    }

    /// The top disk of one of the state's pegs: none where the peg is empty.
    pub fn get_last_disk_rod(&self, number_rod: usize) -> (r: Option<u32>)
        requires
            number_rod < self@.len(),
        ensures
            r == top_disk(self@, number_rod as int),
    {
        let rod = &self.rods[number_rod];
        if rod.len() > 0 {
            Some(rod[rod.len() - 1])
        } else {
            None
        }
    }

    /// Decides whether `disk` may be placed on one of the state's pegs.
    pub fn check_valid_disk_in_rod(&self, number_rod: usize, disk: u32) -> (r: bool)
        requires
            number_rod < self@.len(),
        ensures
            r == fits(self@, number_rod as int, disk),
    {
        match self.get_last_disk_rod(number_rod) {
            Some(top) => disk < top,
            None => true,
        }
    }

    /// Places `disk` on a peg, or leaves the state as it is and says why not:
    /// the index is no peg of the state, or else the peg's top disk is not
    /// larger than `disk`.
    pub fn put_disk_in_rod(&mut self, num_rod: usize, disk: u32) -> (r: Result<(), MoveError>)
        ensures
            final(self).acc_cost == old(self).acc_cost,
            r is Ok <==> num_rod < old(self)@.len() && fits(old(self)@, num_rod as int, disk),
            r is Ok ==> final(self)@ == with_disk(old(self)@, num_rod as int, disk),
            r is Err ==> final(self)@ == old(self)@,
            r is Err ==> r->Err_0 == (if num_rod >= old(self)@.len() {
                MoveError::InvalidPegIndex
            } else {
                MoveError::DestinationTooSmall
            }),
    {
        if num_rod >= self.rods.len() {
            Err(MoveError::InvalidPegIndex)
        } else if self.check_valid_disk_in_rod(num_rod, disk) {
            let mut rod = copy_rod(&self.rods[num_rod]);
            rod.push(disk);
            self.rods.set(num_rod, rod);
            assert(self@ =~= with_disk(old(self)@, num_rod as int, disk));
            Ok(())
        } else {
            Err(MoveError::DestinationTooSmall)
        }
    }

    /// Takes the top disk off one of the state's pegs; none, and no change,
    /// where the peg is empty.
    pub fn pop_disk_from_rod(&mut self, number_rod: usize) -> (r: Option<u32>)
        requires
            number_rod < old(self)@.len(),
        ensures
            final(self).acc_cost == old(self).acc_cost,
            r == top_disk(old(self)@, number_rod as int),
            r is None ==> final(self)@ == old(self)@,
            r is Some ==> final(self)@ == without_top(old(self)@, number_rod as int),
    {
        let mut rod = copy_rod(&self.rods[number_rod]);
        let top = rod.pop();
        if top.is_some() {
            self.rods.set(number_rod, rod);
            assert(self@ =~= without_top(old(self)@, number_rod as int));
        }
        top
    }

    /// The pegs as a picture: one row for each height, the highest first, and
    /// in each row what sits on each peg at that height.
    pub fn pretty_rows(&self) -> (r: Vec<Vec<Option<u32>>>)
        ensures
            r.len() == tallest(self@, self@.len() as int),
            forall|row: int| 0 <= row < r.len() ==> (#[trigger] r[row]).len() == self@.len(),
            forall|row: int, n: int|
                0 <= row < r.len() && 0 <= n < self@.len() ==> #[trigger] r[row][n] == disk_at(
                    self@,
                    n,
                    r.len() - 1 - row,
                ),
    {
        let mut height: usize = 0;
        let mut n: usize = 0;
        while n < self.rods.len()
            invariant
                n <= self.rods.len(),
                height == tallest(self@, n as int),
            decreases self.rods.len() - n,
        {
            if self.rods[n].len() > height {
                height = self.rods[n].len();
            }
            n += 1;
        }
        let mut rows: Vec<Vec<Option<u32>>> = Vec::new();
        let mut h: usize = height;
        while h > 0
            invariant
                h <= height,
                rows.len() == height - h,
                forall|row: int| 0 <= row < rows.len() ==> (#[trigger] rows[row]).len() == self@.len(),
                forall|row: int, n: int|
                    0 <= row < rows.len() && 0 <= n < self@.len() ==> #[trigger] rows[row][n]
                        == disk_at(self@, n, height - 1 - row),
            decreases h,
        {
            h -= 1;
            let mut cells: Vec<Option<u32>> = Vec::new();
            let mut n: usize = 0;
            while n < self.rods.len()
                invariant
                    n <= self.rods.len(),
                    cells.len() == n,
                    forall|m: int| 0 <= m < n ==> #[trigger] cells[m] == disk_at(self@, m, h as int),
                decreases self.rods.len() - n,
            {
                let rod = &self.rods[n];
                if h < rod.len() {
                    cells.push(Some(rod[h]));
                } else {
                    cells.push(None);
                }
                n += 1;
            }
            rows.push(cells);
        }
        rows
    }

    /// Adds `cost` to the cost charged so far, held at `u64::MAX`.
    pub fn accumulate_cost(&mut self, cost: u64)
        ensures
            final(self)@ == old(self)@,
            final(self).acc_cost == cost_sum(old(self).acc_cost, cost),
    {
        self.acc_cost = add_cost(self.acc_cost, cost);
    }

    /// The cost charged so far.
    pub fn get_acc_cost(&self) -> (r: u64)
        ensures
            r == self.acc_cost,
    {
        self.acc_cost
    }
}

impl DomainState for States {
    fn same_as(&self, other: &Self) -> (r: bool) {
        if self.rods.len() != other.rods.len() {
            return false;
        }
        let mut n: usize = 0;
        while n < self.rods.len()
            invariant
                n <= self.rods.len(),
                self.rods.len() == other.rods.len(),
                forall|m: int| 0 <= m < n ==> self@[m] == other@[m],
            decreases self.rods.len() - n,
        {
            if !same_rod(&self.rods[n], &other.rods[n]) {
                assert(self@[n as int] != other@[n as int]);
                return false;
            }
            n += 1;
        }
        assert(self@ =~= other@);
        true
    }
}

} // verus!
