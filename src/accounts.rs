//! Account names and the balance tree.
//!
//! An account is a path of non-empty name segments (`assets:bank:checking`).
//! The tree holds one node per path prefix; each node's balance is, per
//! commodity, the sum of the amounts posted to it and to its descendants.
use vstd::prelude::*;

use crate::decimal::{add_spec, Decimal};
use crate::text::{chars_of, string_of};
use crate::transactions::{CurrencyAmount, CurrencyModel};

verus! {

/// An account path, as its name segments.
#[derive(Debug, Clone, PartialEq, Eq, Hash)]
pub struct Account {
    pub segments: Vec<String>,
}

pub open spec fn strings_view(v: Seq<String>) -> Seq<Seq<char>> {
    v.map_values(|s: String| s@)
}

/// Splitting state after reading `s`: the segments completed so far and the
/// segment being read.
pub open spec fn split_state(s: Seq<char>) -> (Seq<Seq<char>>, Seq<char>)
    decreases s.len(),
{
    if s.len() == 0 {
        (seq![], seq![])
    } else {
        let (done, cur) = split_state(s.drop_last());
        if s.last() == ':' {
            (
                if cur.len() > 0 {
                    done.push(cur)
                } else {
                    done
                },
                seq![],
            )
        } else {
            (done, cur.push(s.last()))
        }
    }
}

/// The segments of an account name: the pieces between `:` separators,
/// in order, with empty pieces left out.
pub open spec fn account_segments(s: Seq<char>) -> Seq<Seq<char>> {
    let (done, cur) = split_state(s);
    if cur.len() > 0 {
        done.push(cur)
    } else {
        done
    }
}

/// The segments joined with `:`.
pub open spec fn join_segments(segs: Seq<Seq<char>>) -> Seq<char>
    decreases segs.len(),
{
    if segs.len() == 0 {
        seq![]
    } else if segs.len() == 1 {
        segs[0]
    } else {
        join_segments(segs.drop_last()) + seq![':'] + segs.last()
    }
}

impl Account {
    pub open spec fn view(&self) -> Seq<Seq<char>> {
        strings_view(self.segments@)
    }

    /// Whether `self` is a strict ancestor of `other`: a shorter path that
    /// `other` starts with.
    pub fn is_parent_of(&self, other: &Account) -> (r: bool)
        ensures
            r == (self@.len() < other@.len() && other@.take(self@.len() as int) == self@),
    {
        if self.segments.len() >= other.segments.len() {
            return false;
        }
        let mut i: usize = 0;
        while i < self.segments.len()
            invariant
                i <= self.segments.len() < other.segments.len(),
                forall|j: int| 0 <= j < i ==> self@[j] == other@[j],
            decreases self.segments.len() - i,
        {
            if !(self.segments[i] == other.segments[i]) {
                assert(other@.take(self@.len() as int)[i as int] != self@[i as int]);
                return false;
            }
            i = i + 1;
        }
        assert(other@.take(self@.len() as int) =~= self@);
        true
    }

    pub fn from_segments(segments: Vec<String>) -> (r: Self)
        ensures
            r.segments == segments,
    {
        Account { segments }
    }

    /// The root path, with no segment.
    pub fn empty() -> (r: Self)
        ensures
            r@ == Seq::<Seq<char>>::empty(),
    {
        let r = Account { segments: Vec::new() };
        assert(r@ =~= Seq::<Seq<char>>::empty());
        r
    }

    /// Splits a name on `:`, leaving out empty segments.
    pub fn parse(name: &str) -> (r: Self)
        ensures
            r@ == account_segments(name@),
    {
        let chars = chars_of(name);
        let mut segments: Vec<String> = Vec::new();
        let mut cur: Vec<char> = Vec::new();
        let mut i: usize = 0;
        assert(chars@.take(0) =~= seq![]);
        while i < chars.len()
            invariant
                i <= chars.len(),
                chars@ == name@,
                split_state(chars@.take(i as int)) == (strings_view(segments@), cur@),
            decreases chars.len() - i,
        {
            let c = chars[i];
            assert(chars@.take(i + 1).drop_last() =~= chars@.take(i as int));
            assert(chars@.take(i + 1).last() == c);
            if c == ':' {
                if cur.len() > 0 {
                    let piece = string_of(&cur);
                    let ghost before = segments@;
                    segments.push(piece);
                    assert(strings_view(segments@) =~= strings_view(before).push(cur@));
                }
                cur = Vec::new();
            } else {
                cur.push(c);
            }
            i = i + 1;
        }
        if cur.len() > 0 {
            let piece = string_of(&cur);
            let ghost before = segments@;
            segments.push(piece);
            assert(strings_view(segments@) =~= strings_view(before).push(cur@));
        }
        assert(chars@.take(i as int) =~= name@);
        Account { segments }
    }

    /// The last segment.
    pub fn name(&self) -> (r: &str)
        requires
            self@.len() > 0,
        ensures
            r@ == self@.last(),
    {
        self.segments[self.segments.len() - 1].as_str()
    }

    /// The path without its last segment, where that leaves a segment.
    pub fn parent(&self) -> (r: Option<Account>)
        ensures
            match r {
                Some(p) => self@.len() > 1 && p@ == self@.drop_last(),
                None => self@.len() <= 1,
            },
    {
        if self.segments.len() > 1 {
            let n = self.segments.len() - 1;
            Some(Account { segments: prefix_of(&self.segments, n) })
        } else {
            None
        }
    }

    /// The number of segments.
    pub fn depth(&self) -> (r: usize)
        ensures
            r == self@.len(),
    {
        self.segments.len()
    }

    /// The segments joined with `:`.
    pub fn to_text(&self) -> (r: String)
        ensures
            r@ == join_segments(self@),
    {
        let mut out: Vec<char> = Vec::new();
        let mut i: usize = 0;
        while i < self.segments.len()
            invariant
                i <= self.segments.len(),
                out@ == join_segments(self@.take(i as int)),
            decreases self.segments.len() - i,
        {
            if i > 0 {
                out.push(':');
            }
            let mut piece = chars_of(self.segments[i].as_str());
            out.append(&mut piece);
            proof {
                let t = self@.take(i + 1);
                assert(t.drop_last() =~= self@.take(i as int));
                if i == 0 {
                    assert(out@ =~= t[0]);
                }
            }
            i = i + 1;
        }
        assert(self@.take(i as int) =~= self@);
        string_of(&out)
    }
}

/// A copy of the first `n` strings of `v`.
pub fn prefix_of(v: &Vec<String>, n: usize) -> (r: Vec<String>)
    requires
        n <= v.len(),
    ensures
        strings_view(r@) == strings_view(v@).take(n as int),
{
    let mut r: Vec<String> = Vec::new();
    let mut i: usize = 0;
    while i < n
        invariant
            i <= n <= v.len(),
            r@.len() == i,
            forall|j: int| 0 <= j < i ==> r@[j]@ == v@[j]@,
        decreases n - i,
    {
        let piece: String = v[i].clone();
        r.push(piece);
        i = i + 1;
    }
    assert(strings_view(r@) =~= strings_view(v@).take(n as int));
    r
}

/// Whether two accounts have the same path.
pub fn same_path(a: &Account, b: &Account) -> (r: bool)
    ensures
        r == (a@ == b@),
{
    if a.segments.len() != b.segments.len() {
        return false;
    }
    let mut i: usize = 0;
    while i < a.segments.len()
        invariant
            i <= a.segments.len() == b.segments.len(),
            forall|j: int| 0 <= j < i ==> a@[j] == b@[j],
        decreases a.segments.len() - i,
    {
        if !(a.segments[i] == b.segments[i]) {
            assert(a@[i as int] != b@[i as int]);
            return false;
        }
        i = i + 1;
    }
    assert(a@ =~= b@);
    true
}

/// Index of the first entry for commodity `c`.
pub open spec fn find_commodity(b: Seq<CurrencyModel>, c: Seq<char>) -> Option<int>
    decreases b.len(),
{
    if b.len() == 0 {
        None
    } else if b[0].commodity == c {
        Some(0)
    } else {
        match find_commodity(b.drop_first(), c) {
            Some(i) => Some(i + 1),
            None => None,
        }
    }
}

/// The running total for commodity `c`, if there is one.
pub open spec fn total_of(b: Seq<CurrencyModel>, c: Seq<char>) -> Option<Decimal> {
    match find_commodity(b, c) {
        Some(i) => Some(b[i].value),
        None => None,
    }
}

/// `b` with `a` added to the total of its commodity, which starts at zero
/// where there is none yet; `None` where the sum does not fit.
pub open spec fn balance_add(b: Seq<CurrencyModel>, a: CurrencyModel) -> Option<Seq<CurrencyModel>> {
    match find_commodity(b, a.commodity) {
        Some(i) => match add_spec(b[i].value, a.value) {
            Some(v) => Some(b.update(i, CurrencyModel { value: v, commodity: a.commodity })),
            None => None,
        },
        None => match add_spec(Decimal { negative: false, digits: 0, scale: 0 }, a.value) {
            Some(v) => Some(b.push(CurrencyModel { value: v, commodity: a.commodity })),
            None => None,
        },
    }
}

proof fn lemma_find_commodity(b: Seq<CurrencyModel>, c: Seq<char>)
    ensures
        match find_commodity(b, c) {
            Some(i) => 0 <= i < b.len() && b[i].commodity == c && forall|j: int|
                0 <= j < i ==> b[j].commodity != c,
            None => forall|j: int| 0 <= j < b.len() ==> b[j].commodity != c,
        },
    decreases b.len(),
{
    if b.len() > 0 {
        lemma_find_commodity(b.drop_first(), c);
        if b[0].commodity != c {
            match find_commodity(b.drop_first(), c) {
                Some(i) => {
                    assert forall|j: int| 0 <= j < i + 1 implies b[j].commodity != c by {
                        if j > 0 {
                            assert(b[j] == b.drop_first()[j - 1]);
                        }
                    }
                },
                None => {
                    assert forall|j: int| 0 <= j < b.len() implies b[j].commodity != c by {
                        if j > 0 {
                            assert(b[j] == b.drop_first()[j - 1]);
                        }
                    }
                },
            }
        }
    }
}

proof fn lemma_find_commodity_at(b: Seq<CurrencyModel>, c: Seq<char>, i: int)
    requires
        0 <= i < b.len(),
        b[i].commodity == c,
        forall|j: int| 0 <= j < i ==> b[j].commodity != c,
    ensures
        find_commodity(b, c) == Some(i),
    decreases i,
{
    if i > 0 {
        lemma_find_commodity_at(b.drop_first(), c, i - 1);
    }
}

proof fn lemma_find_commodity_none(b: Seq<CurrencyModel>, c: Seq<char>)
    requires
        forall|j: int| 0 <= j < b.len() ==> b[j].commodity != c,
    ensures
        find_commodity(b, c) is None,
    decreases b.len(),
{
    if b.len() > 0 {
        lemma_find_commodity_none(b.drop_first(), c);
    }
}

/// No commodity has two entries.
pub open spec fn distinct_commodities(b: Seq<CurrencyModel>) -> bool {
    forall|i: int, j: int| 0 <= i < j < b.len() ==> b[i].commodity != b[j].commodity
}

proof fn lemma_balance_add_distinct(b: Seq<CurrencyModel>, a: CurrencyModel)
    requires
        distinct_commodities(b),
        balance_add(b, a) is Some,
    ensures
        distinct_commodities(balance_add(b, a)->0),
{
    lemma_find_commodity(b, a.commodity);
}

/// Running totals, one per commodity. Sums are exact (see
/// [`Decimal::checked_add`]); an addition whose total would not fit in a
/// 128-bit coefficient is refused rather than rounded.
#[derive(Debug)]
pub struct Balance {
    by_commodity: Vec<CurrencyAmount>,
}

impl Balance {
    pub closed spec fn view(&self) -> Seq<CurrencyModel> {
        self.by_commodity@.map_values(|a: CurrencyAmount| a@)
    }

    pub fn new() -> (r: Self)
        ensures
            r@ == Seq::<CurrencyModel>::empty(),
            distinct_commodities(r@),
    {
        let r = Balance { by_commodity: Vec::new() };
        assert(r@ =~= Seq::<CurrencyModel>::empty());
        r
    }

    /// Adds `amount` to the total of its commodity. Returns `false`, and
    /// changes nothing, where the sum does not fit.
    pub fn add_amount(&mut self, amount: &CurrencyAmount) -> (r: bool)
        ensures
            match balance_add(old(self)@, amount@) {
                Some(b) => r && final(self)@ == b,
                None => !r && final(self)@ == old(self)@,
            },
            distinct_commodities(old(self)@) ==> distinct_commodities(final(self)@),
    {
        proof {
            if distinct_commodities(self@) && balance_add(self@, amount@) is Some {
                lemma_balance_add_distinct(self@, amount@);
            }
        }
        let ghost b = self@;
        let mut i: usize = 0;
        while i < self.by_commodity.len()
            invariant
                i <= self.by_commodity.len(),
                b == self@,
                b == old(self)@,
                forall|j: int| 0 <= j < i ==> b[j].commodity != amount@.commodity,
            decreases self.by_commodity.len() - i,
        {
            if self.by_commodity[i].commodity == amount.commodity {
                proof { lemma_find_commodity_at(b, amount@.commodity, i as int); }
                let sum = self.by_commodity[i].value.checked_add(&amount.value);
                match sum {
                    Some(v) => {
                        let entry = CurrencyAmount { value: v, commodity: amount.commodity.clone() };
                        let ghost e = entry@;
                        self.by_commodity.set(i, entry);
                        assert(self@ =~= b.update(i as int, e));
                        return true;
                    },
                    None => {
                        return false;
                    },
                }
            }
            i = i + 1;
        }
        proof { lemma_find_commodity_none(b, amount@.commodity); }
        let zero = Decimal::zero();
        match zero.checked_add(&amount.value) {
            Some(v) => {
                let entry = CurrencyAmount { value: v, commodity: amount.commodity.clone() };
                let ghost e = entry@;
                self.by_commodity.push(entry);
                assert(self@ =~= b.push(e));
                true
            },
            None => false,
        }
    }

    /// Whether [`Balance::add_amount`] would succeed on `amount`.
    pub fn can_add(&self, amount: &CurrencyAmount) -> (r: bool)
        ensures
            r == balance_add(self@, amount@) is Some,
    {
        let ghost b = self@;
        let mut i: usize = 0;
        while i < self.by_commodity.len()
            invariant
                i <= self.by_commodity.len(),
                b == self@,
                forall|j: int| 0 <= j < i ==> b[j].commodity != amount@.commodity,
            decreases self.by_commodity.len() - i,
        {
            if self.by_commodity[i].commodity == amount.commodity {
                proof { lemma_find_commodity_at(b, amount@.commodity, i as int); }
                return self.by_commodity[i].value.checked_add(&amount.value).is_some();
            }
            i = i + 1;
        }
        proof { lemma_find_commodity_none(b, amount@.commodity); }
        Decimal::zero().checked_add(&amount.value).is_some()
    }

    /// The totals as `‹number› ‹commodity›`, separated by `, `, in the order
    /// their commodities first appeared.
    pub fn to_text(&self) -> (r: String)
        ensures
            r@ == balance_text(self@),
    {
        let mut out: Vec<char> = Vec::new();
        let mut i: usize = 0;
        while i < self.by_commodity.len()
            invariant
                i <= self.by_commodity.len(),
                out@ == balance_text(self@.take(i as int)),
            decreases self.by_commodity.len() - i,
        {
            if i > 0 {
                out.push(',');
                out.push(' ');
            }
            let t = self.by_commodity[i].to_text();
            let mut tc = chars_of(t.as_str());
            out.append(&mut tc);
            proof {
                let s = self@.take(i + 1);
                assert(s.drop_last() =~= self@.take(i as int));
                assert(s.last() == self.by_commodity@[i as int]@);
                if i == 0 {
                    assert(out@ =~= entry_text(s[0]));
                } else {
                    assert(out@ =~= balance_text(s.drop_last()) + seq![',', ' '] + entry_text(
                        s.last(),
                    ));
                }
            }
            i = i + 1;
        }
        assert(self@.take(i as int) =~= self@);
        string_of(&out)
    }

    /// The running total for `commodity`, if any amount of it was added.
    pub fn total(&self, commodity: &str) -> (r: Option<Decimal>)
        ensures
            r == total_of(self@, commodity@),
    {
        let ghost b = self@;
        let key = string_of(&chars_of(commodity));
        let mut i: usize = 0;
        while i < self.by_commodity.len()
            invariant
                i <= self.by_commodity.len(),
                b == self@,
                key@ == commodity@,
                forall|j: int| 0 <= j < i ==> b[j].commodity != commodity@,
            decreases self.by_commodity.len() - i,
        {
            if self.by_commodity[i].commodity == key {
                proof { lemma_find_commodity_at(b, commodity@, i as int); }
                return Some(self.by_commodity[i].value);
            }
            i = i + 1;
        }
        proof { lemma_find_commodity_none(b, commodity@); }
        None
    }
}

pub open spec fn entry_text(a: CurrencyModel) -> Seq<char> {
    a.value.text_spec() + seq![' '] + a.commodity
}

pub open spec fn balance_text(b: Seq<CurrencyModel>) -> Seq<char>
    decreases b.len(),
{
    if b.len() == 0 {
        seq![]
    } else if b.len() == 1 {
        entry_text(b[0])
    } else {
        balance_text(b.drop_last()) + seq![',', ' '] + entry_text(b.last())
    }
}

/// Mathematical form of a [`TreeNode`].
pub struct TreeModel {
    pub account: Seq<Seq<char>>,
    pub balance: Seq<CurrencyModel>,
    pub children: Seq<TreeModel>,
}

/// A node of the balance tree: an account path, its balance, and one child
/// per next segment.
pub struct TreeNode {
    pub account: Account,
    pub balance: Balance,
    pub children: Vec<TreeNode>,
}

impl TreeNode {
    pub open spec fn view(self) -> TreeModel
        decreases self,
    {
        TreeModel {
            account: self.account@,
            balance: self.balance@,
            children: Seq::new(
                self.children.len() as nat,
                |i: int|
                    if 0 <= i < self.children.len() {
                        self.children[i].view()
                    } else {
                        TreeModel { account: seq![], balance: seq![], children: seq![] }
                    },
            ),
        }
    }
}

pub open spec fn nodes_view(v: Seq<TreeNode>) -> Seq<TreeModel> {
    v.map_values(|n: TreeNode| n@)
}

proof fn lemma_nodes_view_update(v: Seq<TreeNode>, i: int, n: TreeNode)
    requires
        0 <= i < v.len(),
    ensures
        nodes_view(v.update(i, n)) == nodes_view(v).update(i, n@),
{
    assert(nodes_view(v.update(i, n)) =~= nodes_view(v).update(i, n@));
}

proof fn lemma_nodes_view_push(v: Seq<TreeNode>, n: TreeNode)
    ensures
        nodes_view(v.push(n)) == nodes_view(v).push(n@),
{
    assert(nodes_view(v.push(n)) =~= nodes_view(v).push(n@));
}

proof fn lemma_children_view(n: TreeNode)
    ensures
        n@.children == nodes_view(n.children@),
{
    let inner = n@.children;
    assert forall|i: int| 0 <= i < n.children.len() implies inner[i] == nodes_view(
        n.children@,
    )[i] by {}
    assert(inner =~= nodes_view(n.children@));
}

pub open spec fn leaf(account: Seq<Seq<char>>) -> TreeModel {
    TreeModel { account, balance: seq![], children: seq![] }
}

/// Index of the first child whose path is `a`.
pub open spec fn find_child(cs: Seq<TreeModel>, a: Seq<Seq<char>>) -> Option<int>
    decreases cs.len(),
{
    if cs.len() == 0 {
        None
    } else if cs[0].account == a {
        Some(0)
    } else {
        match find_child(cs.drop_first(), a) {
            Some(i) => Some(i + 1),
            None => None,
        }
    }
}

proof fn lemma_find_child_at(cs: Seq<TreeModel>, a: Seq<Seq<char>>, i: int)
    requires
        0 <= i < cs.len(),
        cs[i].account == a,
        forall|j: int| 0 <= j < i ==> cs[j].account != a,
    ensures
        find_child(cs, a) == Some(i),
    decreases i,
{
    if i > 0 {
        lemma_find_child_at(cs.drop_first(), a, i - 1);
    }
}

proof fn lemma_find_child_none(cs: Seq<TreeModel>, a: Seq<Seq<char>>)
    requires
        forall|j: int| 0 <= j < cs.len() ==> cs[j].account != a,
    ensures
        find_child(cs, a) is None,
    decreases cs.len(),
{
    if cs.len() > 0 {
        lemma_find_child_none(cs.drop_first(), a);
    }
}

/// `t` with the nodes of `path` from depth `depth` on added where missing: at
/// each depth the first child with the matching path is followed, and a
/// missing one is appended as a leaf.
pub open spec fn insert_path(t: TreeModel, path: Seq<Seq<char>>, depth: nat) -> TreeModel
    decreases path.len() - depth,
{
    if depth >= path.len() {
        t
    } else {
        let cur = path.take(depth + 1 as int);
        match find_child(t.children, cur) {
            Some(i) => TreeModel {
                children: t.children.update(i, insert_path(t.children[i], path, depth + 1)),
                ..t
            },
            None => TreeModel {
                children: t.children.push(insert_path(leaf(cur), path, depth + 1)),
                ..t
            },
        }
    }
}

/// The outcome of adding an amount below a node: the new node, and whether
/// the path was found (`Ok(true)`), missing (`Ok(false)`, the node
/// unchanged), or a total would overflow (`Err`, the node unchanged).
pub open spec fn add_below(t: TreeModel, path: Seq<Seq<char>>, a: CurrencyModel, depth: nat) -> (
    TreeModel,
    Result<bool, ()>,
)
    decreases path.len() - depth,
{
    if depth >= path.len() {
        (t, Ok(false))
    } else {
        match find_child(t.children, path.take(depth + 1 as int)) {
            None => (t, Ok(false)),
            Some(i) => {
                let child = t.children[i];
                let (c2, st) = if depth + 1 == path.len() {
                    (child, Ok(true))
                } else {
                    add_below(child, path, a, depth + 1)
                };
                match st {
                    Ok(true) => match balance_add(c2.balance, a) {
                        Some(nb) => (
                            TreeModel {
                                children: t.children.update(i, TreeModel { balance: nb, ..c2 }),
                                ..t
                            },
                            Ok(true),
                        ),
                        None => (t, Err(())),
                    },
                    _ => (t, st),
                }
            },
        }
    }
}

/// A total of the balance tree outgrew 128 bits of coefficient.
#[derive(Debug, Clone, Copy, PartialEq, Eq)]
pub struct BalanceOverflow;

impl TreeNode {
    /// An empty tree: the root, with no path, balance or children.
    pub fn new() -> (r: Self)
        ensures
            r@ == leaf(seq![]),
            no_duplicate_children(r@),
            paths_well_formed(r@),
    {
        proof {
            lemma_leaf_well_formed(seq![]);
            assert forall|p: Seq<int>| #[trigger] node_at(leaf(seq![]), p) is Some implies distinct_children(
                node_at(leaf(seq![]), p)->0,
            ) by {
                lemma_leaf_at(seq![], p);
            }
        }
        let r = TreeNode { account: Account::empty(), balance: Balance::new(), children: Vec::new() };
        proof { lemma_children_view(r); }
        assert(r@.children =~= seq![]);
        r
    }

    /// Empties the tree.
    pub fn clear(&mut self)
        ensures
            final(self)@ == leaf(seq![]),
            no_duplicate_children(final(self)@),
            paths_well_formed(final(self)@),
    {
        proof {
            lemma_leaf_well_formed(seq![]);
            assert forall|p: Seq<int>| #[trigger] node_at(leaf(seq![]), p) is Some implies distinct_children(
                node_at(leaf(seq![]), p)->0,
            ) by {
                lemma_leaf_at(seq![], p);
            }
        }
        self.children = Vec::new();
        self.account = Account::empty();
        self.balance = Balance::new();
        proof { lemma_children_view(*self); }
        assert(self@.children =~= seq![]);
    }

    fn child_index(&self, path: &Account) -> (r: Option<usize>)
        ensures
            match r {
                Some(i) => i < self.children.len() && find_child(self@.children, path@) == Some(
                    i as int,
                ),
                None => find_child(self@.children, path@) is None,
            },
    {
        proof { lemma_children_view(*self); }
        let mut i: usize = 0;
        while i < self.children.len()
            invariant
                i <= self.children.len(),
                self@.children == nodes_view(self.children@),
                forall|j: int| 0 <= j < i ==> self@.children[j].account != path@,
            decreases self.children.len() - i,
        {
            if same_path(&self.children[i].account, path) {
                proof { lemma_find_child_at(self@.children, path@, i as int); }
                return Some(i);
            }
            i = i + 1;
        }
        proof { lemma_find_child_none(self@.children, path@); }
        None
    }

    /// Adds the nodes of `account`'s path that are missing; existing nodes
    /// are kept, so adding a path twice changes nothing the second time.
    pub fn add_account(&mut self, account: &Account)
        ensures
            final(self)@ == insert_path(old(self)@, account@, 0),
            no_duplicate_children(old(self)@) ==> no_duplicate_children(final(self)@),
            final(self)@.account == old(self)@.account,
            paths_well_formed(old(self)@) && old(self)@.account.len() == 0 ==> paths_well_formed(
                final(self)@,
            ),
    {
        proof {
            if no_duplicate_children(self@) {
                lemma_add_account_no_duplicates(self@, account@);
            }
            lemma_insert_keeps_account(self@, account@, 0);
            if paths_well_formed(self@) && self@.account.len() == 0 {
                lemma_add_account_well_formed(self@, account@);
            }
        }
        self.add_account_recursive(account, 0)
    }

    fn add_account_recursive(&mut self, account: &Account, depth: usize)
        ensures
            final(self)@ == insert_path(old(self)@, account@, depth as nat),
        decreases account.segments.len() - depth,
    {
        if depth >= account.segments.len() {
            return;
        }
        let current = Account { segments: prefix_of(&account.segments, depth + 1) };
        assert(current@ == account@.take(depth + 1));
        let ghost t = self@;
        proof { lemma_children_view(*self); }
        match self.child_index(&current) {
            Some(i) => {
                let ghost before = self.children@;
                let mut child = self.children.remove(i);
                child.add_account_recursive(account, depth + 1);
                self.children.insert(i, child);
                assert(self.children@ =~= before.update(i as int, child));
                proof {
                    lemma_children_view(*self);
                    lemma_nodes_view_update(before, i as int, child);
                }
            },
            None => {
                let mut child = TreeNode {
                    account: current,
                    balance: Balance::new(),
                    children: Vec::new(),
                };
                proof { lemma_children_view(child); }
                assert(nodes_view(child.children@) =~= seq![]);
                assert(child@ == leaf(account@.take(depth + 1)));
                child.add_account_recursive(account, depth + 1);
                let ghost before = self.children@;
                self.children.push(child);
                proof {
                    lemma_children_view(*self);
                    lemma_nodes_view_push(before, child);
                }
            },
        }
    }

    /// Adds `amount` to the balance of `account`'s node and of each of its
    /// ancestors, under the amount's commodity. Nothing changes where the
    /// path is not in the tree, nor where any of those totals would
    /// overflow (then `Err` is returned).
    pub fn add_amount_to_account(&mut self, account: &Account, amount: &CurrencyAmount) -> (r:
        Result<(), BalanceOverflow>)
        ensures
            final(self)@ == add_below(old(self)@, account@, amount@, 0).0,
            r is Ok <==> add_below(old(self)@, account@, amount@, 0).1 is Ok,
            r is Err ==> final(self)@ == old(self)@,
            no_duplicate_children(old(self)@) ==> no_duplicate_children(final(self)@),
            final(self)@.account == old(self)@.account,
            paths_well_formed(old(self)@) ==> paths_well_formed(final(self)@),
    {
        proof {
            if no_duplicate_children(self@) {
                lemma_add_amount_no_duplicates(self@, account@, amount@);
            }
            lemma_add_keeps_shape(self@, account@, amount@, 0, seq![]);
            if paths_well_formed(self@) {
                lemma_add_amount_well_formed(self@, account@, amount@);
            }
        }
        match self.amount_status(account, amount, 0) {
            Err(e) => Err(e),
            Ok(_) => {
                let _ = self.add_amount_recursive(account, amount, 0);
                Ok(())
            },
        }
    }

    /// Whether adding `amount` below this node finds the path, and whether
    /// every total on it can take the amount; nothing is changed.
    fn amount_status(&self, account: &Account, amount: &CurrencyAmount, depth: usize) -> (r: Result<
        bool,
        BalanceOverflow,
    >)
        ensures
            match add_below(self@, account@, amount@, depth as nat).1 {
                Ok(found) => r == Ok::<bool, BalanceOverflow>(found),
                Err(_) => r is Err,
            },
        decreases account.segments.len() - depth,
    {
        if depth >= account.segments.len() {
            return Ok(false);
        }
        let current = Account { segments: prefix_of(&account.segments, depth + 1) };
        assert(current@ == account@.take(depth + 1));
        proof { lemma_children_view(*self); }
        let i = match self.child_index(&current) {
            Some(i) => i,
            None => {
                return Ok(false);
            },
        };
        let child = &self.children[i];
        assert(child@ == self@.children[i as int]);
        let st = if depth + 1 == account.segments.len() {
            Ok(true)
        } else {
            proof { lemma_add_keeps_shape(child@, account@, amount@, (depth + 1) as nat, seq![]); }
            child.amount_status(account, amount, depth + 1)
        };
        match st {
            Ok(true) => {
                if child.balance.can_add(amount) {
                    Ok(true)
                } else {
                    Err(BalanceOverflow)
                }
            },
            Ok(false) => Ok(false),
            Err(e) => Err(e),
        }
    }

    fn add_amount_recursive(&mut self, account: &Account, amount: &CurrencyAmount, depth: usize) -> (r:
        bool)
        requires
            add_below(old(self)@, account@, amount@, depth as nat).1 is Ok,
        ensures
            final(self)@ == add_below(old(self)@, account@, amount@, depth as nat).0,
            add_below(old(self)@, account@, amount@, depth as nat).1 == Ok::<bool, ()>(r),
        decreases account.segments.len() - depth,
    {
        if depth >= account.segments.len() {
            return false;
        }
        let current = Account { segments: prefix_of(&account.segments, depth + 1) };
        assert(current@ == account@.take(depth + 1));
        let ghost t = self@;
        proof { lemma_children_view(*self); }
        let i = match self.child_index(&current) {
            Some(i) => i,
            None => {
                return false;
            },
        };
        let ghost before = self.children@;
        let mut child = self.children.remove(i);
        assert(child@ == t.children[i as int]);
        let found = if depth + 1 == account.segments.len() {
            true
        } else {
            child.add_amount_recursive(account, amount, depth + 1)
        };
        if found {
            let added = child.balance.add_amount(amount);
            assert(added);
        }
        self.children.insert(i, child);
        assert(self.children@ =~= before.update(i as int, child));
        proof {
            lemma_children_view(*self);
            lemma_nodes_view_update(before, i as int, child);
            if !found {
                assert(nodes_view(before).update(i as int, child@) =~= nodes_view(before));
            }
        }
        found
    }
}

/// The node reached from `t` by following the child indices `p`.
pub open spec fn node_at(t: TreeModel, p: Seq<int>) -> Option<TreeModel>
    decreases p.len(),
{
    if p.len() == 0 {
        Some(t)
    } else if 0 <= p[0] < t.children.len() {
        node_at(t.children[p[0]], p.drop_first())
    } else {
        None
    }
}

proof fn lemma_balance_add_other(b: Seq<CurrencyModel>, a: CurrencyModel, k: Seq<char>)
    requires
        k != a.commodity,
        balance_add(b, a) is Some,
    ensures
        total_of(balance_add(b, a)->0, k) == total_of(b, k),
{
    let nb = balance_add(b, a)->0;
    lemma_find_commodity(b, a.commodity);
    lemma_find_commodity(b, k);
    match find_commodity(b, k) {
        Some(j) => {
            assert forall|m: int| 0 <= m < j implies nb[m].commodity != k by {
                if m < b.len() {
                    assert(nb[m].commodity == b[m].commodity || nb[m].commodity == a.commodity);
                }
            }
            assert(nb[j].commodity == k && nb[j].value == b[j].value);
            lemma_find_commodity_at(nb, k, j);
        },
        None => {
            assert forall|m: int| 0 <= m < nb.len() implies nb[m].commodity != k by {
                if m < b.len() {
                    assert(nb[m].commodity == b[m].commodity || nb[m].commodity == a.commodity);
                }
            }
            lemma_find_commodity_none(nb, k);
        },
    }
}

/// Adding an amount keeps the shape of the tree and the path of each node.
pub proof fn lemma_add_keeps_shape(
    t: TreeModel,
    path: Seq<Seq<char>>,
    a: CurrencyModel,
    depth: nat,
    p: Seq<int>,
)
    ensures
        node_at(add_below(t, path, a, depth).0, p) is Some <==> node_at(t, p) is Some,
        node_at(t, p) is Some ==> node_at(add_below(t, path, a, depth).0, p)->0.account == node_at(
            t,
            p,
        )->0.account,
        add_below(t, path, a, depth).0.balance == t.balance,
        add_below(t, path, a, depth).0.account == t.account,
        add_below(t, path, a, depth).0.children.len() == t.children.len(),
    decreases path.len() - depth, p.len(),
{
    if depth < path.len() {
        match find_child(t.children, path.take(depth + 1 as int)) {
            None => {},
            Some(i) => {
                lemma_find_child_bound(t.children, path.take(depth + 1 as int));
                let child = t.children[i];
                if depth + 1 < path.len() {
                    lemma_add_keeps_shape(child, path, a, depth + 1, seq![]);
                }
                if p.len() > 0 && p[0] == i {
                    if depth + 1 < path.len() {
                        lemma_add_keeps_shape(child, path, a, depth + 1, p.drop_first());
                        let c2 = add_below(child, path, a, depth + 1).0;
                        match balance_add(c2.balance, a) {
                            Some(nb) => lemma_node_at_same_children(
                                c2,
                                TreeModel { balance: nb, ..c2 },
                                p.drop_first(),
                            ),
                            None => {},
                        }
                    } else {
                        match balance_add(child.balance, a) {
                            Some(nb) => lemma_node_at_same_children(
                                child,
                                TreeModel { balance: nb, ..child },
                                p.drop_first(),
                            ),
                            None => {},
                        }
                    }
                }
            },
        }
    }
}

proof fn lemma_find_child_bound(cs: Seq<TreeModel>, a: Seq<Seq<char>>)
    ensures
        match find_child(cs, a) {
            Some(i) => 0 <= i < cs.len() && cs[i].account == a,
            None => true,
        },
    decreases cs.len(),
{
    if cs.len() > 0 {
        lemma_find_child_bound(cs.drop_first(), a);
    }
}

/// Two nodes with the same path and children agree below the root.
proof fn lemma_node_at_same_children(x: TreeModel, y: TreeModel, q: Seq<int>)
    requires
        x.children == y.children,
        x.account == y.account,
    ensures
        node_at(x, q) is Some <==> node_at(y, q) is Some,
        q.len() > 0 ==> node_at(x, q) == node_at(y, q),
        node_at(x, q) is Some ==> node_at(x, q)->0.account == node_at(y, q)->0.account,
{
}

/// Commodities are independent: adding an amount leaves the total of every
/// other commodity unchanged at every node of the tree.
pub proof fn lemma_other_commodities_unchanged(
    t: TreeModel,
    path: Seq<Seq<char>>,
    a: CurrencyModel,
    depth: nat,
    p: Seq<int>,
    k: Seq<char>,
)
    requires
        k != a.commodity,
    ensures
        node_at(t, p) is Some ==> total_of(node_at(add_below(t, path, a, depth).0, p)->0.balance, k)
            == total_of(node_at(t, p)->0.balance, k),
    decreases path.len() - depth, p.len(),
{
    lemma_add_keeps_shape(t, path, a, depth, p);
    if depth < path.len() && p.len() > 0 {
        match find_child(t.children, path.take(depth + 1 as int)) {
            None => {},
            Some(i) => {
                lemma_find_child_bound(t.children, path.take(depth + 1 as int));
                let child = t.children[i];
                if p[0] == i {
                    let q = p.drop_first();
                    if depth + 1 < path.len() {
                        lemma_add_keeps_shape(child, path, a, depth + 1, q);
                        lemma_other_commodities_unchanged(child, path, a, depth + 1, q, k);
                        let c2 = add_below(child, path, a, depth + 1).0;
                        match balance_add(c2.balance, a) {
                            Some(nb) => {
                                lemma_node_at_same_children(c2, TreeModel { balance: nb, ..c2 }, q);
                                if q.len() == 0 {
                                    lemma_balance_add_other(c2.balance, a, k);
                                }
                            },
                            None => {},
                        }
                    } else {
                        match balance_add(child.balance, a) {
                            Some(nb) => {
                                lemma_node_at_same_children(
                                    child,
                                    TreeModel { balance: nb, ..child },
                                    q,
                                );
                                if q.len() == 0 {
                                    lemma_balance_add_other(child.balance, a, k);
                                }
                            },
                            None => {},
                        }
                    }
                }
            },
        }
    }
}

proof fn lemma_find_child_update(cs: Seq<TreeModel>, a: Seq<Seq<char>>, i: int, x: TreeModel)
    requires
        0 <= i < cs.len(),
        x.account == cs[i].account,
    ensures
        find_child(cs.update(i, x), a) == find_child(cs, a),
    decreases cs.len(),
{
    if i > 0 {
        assert(cs.update(i, x).drop_first() =~= cs.drop_first().update(i - 1, x));
        assert(cs.update(i, x)[0] == cs[0]);
        lemma_find_child_update(cs.drop_first(), a, i - 1, x);
    } else {
        assert(cs.update(i, x).drop_first() =~= cs.drop_first());
        assert(cs.update(i, x)[0].account == cs[0].account);
    }
}

proof fn lemma_find_child_push(cs: Seq<TreeModel>, a: Seq<Seq<char>>, x: TreeModel)
    requires
        find_child(cs, a) is None,
        x.account == a,
    ensures
        find_child(cs.push(x), a) == Some(cs.len() as int),
    decreases cs.len(),
{
    if cs.len() > 0 {
        assert(cs.push(x).drop_first() =~= cs.drop_first().push(x));
        lemma_find_child_push(cs.drop_first(), a, x);
    }
}

proof fn lemma_insert_keeps_account(t: TreeModel, path: Seq<Seq<char>>, depth: nat)
    ensures
        insert_path(t, path, depth).account == t.account,
    decreases path.len() - depth,
{
}

/// Adding an account path is idempotent: adding it a second time leaves
/// the tree as the first time left it.
pub proof fn lemma_add_account_idempotent(t: TreeModel, path: Seq<Seq<char>>, depth: nat)
    ensures
        insert_path(insert_path(t, path, depth), path, depth) == insert_path(t, path, depth),
    decreases path.len() - depth,
{
    if depth < path.len() {
        let cur = path.take(depth + 1 as int);
        let once = insert_path(t, path, depth);
        lemma_find_child_bound(t.children, cur);
        match find_child(t.children, cur) {
            Some(i) => {
                let c1 = insert_path(t.children[i], path, depth + 1);
                lemma_insert_keeps_account(t.children[i], path, depth + 1);
                lemma_find_child_update(t.children, cur, i, c1);
                lemma_add_account_idempotent(t.children[i], path, depth + 1);
                assert(once.children.update(i, insert_path(c1, path, depth + 1)) =~= once.children);
            },
            None => {
                let c1 = insert_path(leaf(cur), path, depth + 1);
                lemma_insert_keeps_account(leaf(cur), path, depth + 1);
                lemma_find_child_push(t.children, cur, c1);
                lemma_add_account_idempotent(leaf(cur), path, depth + 1);
                let n = t.children.len() as int;
                assert(once.children[n] == c1);
                assert(once.children.update(n, insert_path(c1, path, depth + 1)) =~= once.children);
            },
        }
    }
}

/// No two children of `t` have the same path.
pub open spec fn distinct_children(t: TreeModel) -> bool {
    forall|i: int, j: int|
        0 <= i < j < t.children.len() ==> t.children[i].account != t.children[j].account
}

/// No node of `t` has two children with the same path.
pub open spec fn no_duplicate_children(t: TreeModel) -> bool {
    forall|p: Seq<int>| #[trigger] node_at(t, p) is Some ==> distinct_children(node_at(t, p)->0)
}

proof fn lemma_find_child_none_all(cs: Seq<TreeModel>, a: Seq<Seq<char>>)
    requires
        find_child(cs, a) is None,
    ensures
        forall|j: int| 0 <= j < cs.len() ==> cs[j].account != a,
    decreases cs.len(),
{
    if cs.len() > 0 {
        lemma_find_child_none_all(cs.drop_first(), a);
        assert forall|j: int| 0 <= j < cs.len() implies cs[j].account != a by {
            if j > 0 {
                assert(cs[j] == cs.drop_first()[j - 1]);
            }
        }
    }
}

proof fn lemma_leaf_at(a: Seq<Seq<char>>, p: Seq<int>)
    ensures
        node_at(leaf(a), p) is Some ==> distinct_children(node_at(leaf(a), p)->0),
{
}

/// The subtree below child `i` of `t`, seen from `t`.
proof fn lemma_node_at_child(t: TreeModel, i: int, q: Seq<int>)
    requires
        0 <= i < t.children.len(),
    ensures
        node_at(t, seq![i] + q) == node_at(t.children[i], q),
{
    assert((seq![i] + q).drop_first() =~= q);
}

proof fn lemma_insert_distinct_at(t: TreeModel, path: Seq<Seq<char>>, depth: nat, p: Seq<int>)
    requires
        no_duplicate_children(t),
    ensures
        node_at(insert_path(t, path, depth), p) is Some ==> distinct_children(
            node_at(insert_path(t, path, depth), p)->0,
        ),
    decreases path.len() - depth,
{
    assert(node_at(t, seq![]) == Some(t));
    if depth < path.len() {
        let cur = path.take(depth + 1 as int);
        let once = insert_path(t, path, depth);
        lemma_find_child_bound(t.children, cur);
        match find_child(t.children, cur) {
            Some(i) => {
                let child = t.children[i];
                lemma_insert_keeps_account(child, path, depth + 1);
                if p.len() == 0 {
                    assert(distinct_children(once)) by {
                        assert forall|x: int, y: int|
                            0 <= x < y < once.children.len() implies once.children[x].account
                            != once.children[y].account by {
                            assert(t.children[x].account != t.children[y].account);
                        }
                    }
                } else if 0 <= p[0] < once.children.len() {
                    let q = p.drop_first();
                    assert(p =~= seq![p[0]] + q);
                    assert forall|r: Seq<int>| #[trigger] node_at(child, r) is Some implies distinct_children(
                        node_at(child, r)->0,
                    ) by {
                        lemma_node_at_child(t, i, r);
                        assert(node_at(t, seq![i] + r) is Some);
                    }
                    if p[0] == i {
                        lemma_insert_distinct_at(child, path, depth + 1, q);
                    } else {
                        lemma_node_at_child(t, p[0], q);
                        assert(node_at(t, seq![p[0]] + q) is Some ==> distinct_children(
                            node_at(t, seq![p[0]] + q)->0,
                        ));
                    }
                }
            },
            None => {
                let n = t.children.len() as int;
                lemma_insert_keeps_account(leaf(cur), path, depth + 1);
                lemma_find_child_none_all(t.children, cur);
                if p.len() == 0 {
                    assert(distinct_children(once)) by {
                        assert forall|x: int, y: int|
                            0 <= x < y < once.children.len() implies once.children[x].account
                            != once.children[y].account by {
                            if y < n {
                                assert(t.children[x].account != t.children[y].account);
                            }
                        }
                    }
                } else if 0 <= p[0] < once.children.len() {
                    let q = p.drop_first();
                    assert(p =~= seq![p[0]] + q);
                    if p[0] == n {
                        assert forall|r: Seq<int>| #[trigger] node_at(leaf(cur), r) is Some
                            implies distinct_children(node_at(leaf(cur), r)->0) by {
                            lemma_leaf_at(cur, r);
                        }
                        lemma_insert_distinct_at(leaf(cur), path, depth + 1, q);
                    } else {
                        lemma_node_at_child(t, p[0], q);
                        assert(node_at(t, seq![p[0]] + q) is Some ==> distinct_children(
                            node_at(t, seq![p[0]] + q)->0,
                        ));
                    }
                }
            },
        }
    }
}

/// Adding an account path never gives a node two children with the same path.
pub proof fn lemma_add_account_no_duplicates(t: TreeModel, path: Seq<Seq<char>>)
    requires
        no_duplicate_children(t),
    ensures
        no_duplicate_children(insert_path(t, path, 0)),
{
    assert forall|p: Seq<int>| #[trigger] node_at(insert_path(t, path, 0), p) is Some implies distinct_children(
        node_at(insert_path(t, path, 0), p)->0,
    ) by {
        lemma_insert_distinct_at(t, path, 0, p);
    }
}

proof fn lemma_node_at_push(t: TreeModel, p: Seq<int>, k: int)
    ensures
        node_at(t, p.push(k)) == match node_at(t, p) {
            Some(n) => node_at(n, seq![k]),
            None => None,
        },
    decreases p.len(),
{
    if p.len() > 0 {
        assert(p.push(k).drop_first() =~= p.drop_first().push(k));
        if 0 <= p[0] < t.children.len() {
            lemma_node_at_push(t.children[p[0]], p.drop_first(), k);
        }
    } else {
        assert(p.push(k) =~= seq![k]);
    }
}

proof fn lemma_node_at_single(n: TreeModel, k: int)
    ensures
        node_at(n, seq![k]) == if 0 <= k < n.children.len() {
            Some(n.children[k])
        } else {
            None
        },
{
    assert(seq![k].drop_first() =~= Seq::<int>::empty());
    if 0 <= k < n.children.len() {
        assert(node_at(n.children[k], Seq::<int>::empty()) == Some(n.children[k]));
    }
}

/// Adding an amount keeps every path where it was, so it never gives a node
/// two children with the same path either.
pub proof fn lemma_add_amount_no_duplicates(t: TreeModel, path: Seq<Seq<char>>, a: CurrencyModel)
    requires
        no_duplicate_children(t),
    ensures
        no_duplicate_children(add_below(t, path, a, 0).0),
{
    let r = add_below(t, path, a, 0).0;
    assert forall|p: Seq<int>| #[trigger] node_at(r, p) is Some implies distinct_children(
        node_at(r, p)->0,
    ) by {
        lemma_add_keeps_shape(t, path, a, 0, p);
        let n = node_at(r, p)->0;
        let o = node_at(t, p)->0;
        assert(node_at(t, p) is Some);
        assert forall|x: int, y: int| 0 <= x < y < n.children.len() implies n.children[x].account
            != n.children[y].account by {
            lemma_add_keeps_shape(t, path, a, 0, p.push(x));
            lemma_add_keeps_shape(t, path, a, 0, p.push(y));
            lemma_node_at_push(r, p, x);
            lemma_node_at_push(r, p, y);
            lemma_node_at_push(t, p, x);
            lemma_node_at_push(t, p, y);
            lemma_node_at_single(n, x);
            lemma_node_at_single(n, y);
            lemma_node_at_single(o, x);
            lemma_node_at_single(o, y);
            assert(node_at(o, seq![y]) is Some);
            assert(n.children[x].account == o.children[x].account);
            assert(n.children[y].account == o.children[y].account);
            assert(o.children[x].account != o.children[y].account);
        }
    }
}

/// Every child's path is its parent's path and one more segment.
pub open spec fn paths_well_formed(t: TreeModel) -> bool {
    forall|p: Seq<int>| #[trigger] node_at(t, p) is Some ==> {
        let n = node_at(t, p)->0;
        forall|i: int|
            0 <= i < n.children.len() ==> n.children[i].account.len() == n.account.len() + 1
                && n.children[i].account.take(n.account.len() as int) == n.account
    }
}

/// `x` is `path` or one of its ancestors.
pub open spec fn is_prefix_of(x: Seq<Seq<char>>, path: Seq<Seq<char>>) -> bool {
    x.len() <= path.len() && path.take(x.len() as int) == x
}

proof fn lemma_subtree_properties(t: TreeModel, i: int)
    requires
        0 <= i < t.children.len(),
    ensures
        paths_well_formed(t) ==> paths_well_formed(t.children[i]),
        no_duplicate_children(t) ==> no_duplicate_children(t.children[i]),
{
    assert forall|q: Seq<int>| #[trigger] node_at(t.children[i], q) is Some implies node_at(
        t,
        seq![i] + q,
    ) == node_at(t.children[i], q) by {
        lemma_node_at_child(t, i, q);
    }
    if paths_well_formed(t) {
        assert forall|q: Seq<int>| #[trigger] node_at(t.children[i], q) is Some implies ({
            let n = node_at(t.children[i], q)->0;
            forall|j: int|
                0 <= j < n.children.len() ==> n.children[j].account.len() == n.account.len() + 1
                    && n.children[j].account.take(n.account.len() as int) == n.account
        }) by {
            lemma_node_at_child(t, i, q);
            assert(node_at(t, seq![i] + q) is Some);
        }
    }
    if no_duplicate_children(t) {
        assert forall|q: Seq<int>| #[trigger] node_at(t.children[i], q) is Some implies distinct_children(
            node_at(t.children[i], q)->0,
        ) by {
            lemma_node_at_child(t, i, q);
            assert(node_at(t, seq![i] + q) is Some);
        }
    }
}

/// Below a node, every path extends the node's path by one segment per level.
proof fn lemma_descendant_paths(t: TreeModel, p: Seq<int>)
    requires
        paths_well_formed(t),
        node_at(t, p) is Some,
    ensures
        node_at(t, p)->0.account.len() == t.account.len() + p.len(),
        node_at(t, p)->0.account.take(t.account.len() as int) == t.account,
    decreases p.len(),
{
    if p.len() > 0 {
        let i = p[0];
        assert(0 <= i < t.children.len());
        let c = t.children[i];
        assert(node_at(t, seq![]) == Some(t));
        let root = node_at(t, seq![])->0;
        assert(root.children[i].account.len() == root.account.len() + 1);
        assert(root.children[i].account.take(root.account.len() as int) == root.account);
        lemma_subtree_properties(t, i);
        lemma_descendant_paths(c, p.drop_first());
        let n = node_at(c, p.drop_first())->0;
        assert(c.account.take(t.account.len() as int) == t.account);
        assert(n.account.take(t.account.len() as int) =~= n.account.take(
            c.account.len() as int,
        ).take(t.account.len() as int));
    }
}

proof fn lemma_add_below_result(t: TreeModel, path: Seq<Seq<char>>, a: CurrencyModel, depth: nat)
    ensures
        add_below(t, path, a, depth).1 != Ok::<bool, ()>(true) ==> add_below(t, path, a, depth).0
            == t,
{
}

/// Roll-up: on a tree whose paths are well formed and free of duplicates,
/// adding an amount to `path` changes only the nodes whose path is `path`
/// or one of its ancestors, each of which gets the amount added to its
/// total; where the path is missing or a total would overflow, no node
/// changes.
pub proof fn lemma_rollup(
    t: TreeModel,
    path: Seq<Seq<char>>,
    a: CurrencyModel,
    depth: nat,
    p: Seq<int>,
)
    requires
        paths_well_formed(t),
        no_duplicate_children(t),
        t.account == path.take(depth as int),
        depth <= path.len(),
        p.len() > 0,
        node_at(t, p) is Some,
    ensures
        ({
            let n = node_at(t, p)->0;
            let m = node_at(add_below(t, path, a, depth).0, p);
            &&& m is Some
            &&& m->0.account == n.account
            &&& m->0.balance == if add_below(t, path, a, depth).1 == Ok::<bool, ()>(true)
                && is_prefix_of(n.account, path) {
                balance_add(n.balance, a)->0
            } else {
                n.balance
            }
        }),
    decreases path.len() - depth,
{
    lemma_add_below_result(t, path, a, depth);
    lemma_add_keeps_shape(t, path, a, depth, p);
    lemma_descendant_paths(t, p);
    let n = node_at(t, p)->0;
    let st = add_below(t, path, a, depth).1;
    if st == Ok::<bool, ()>(true) {
        let cur = path.take(depth + 1 as int);
        lemma_find_child_bound(t.children, cur);
        let i = find_child(t.children, cur)->0;
        let k = p[0];
        let q = p.drop_first();
        assert(p =~= seq![k] + q);
        let child = t.children[i];
        lemma_subtree_properties(t, i);
        lemma_subtree_properties(t, k);
        lemma_node_at_child(t, k, q);
        assert(node_at(t, seq![]) is Some);
        if k != i {
            let other = t.children[k];
            assert(distinct_children(t)) by {
                assert(node_at(t, seq![]) is Some);
            }
            assert(other.account != cur);
            lemma_descendant_paths(other, q);
            assert(other.account.len() == depth + 1);
            if is_prefix_of(n.account, path) {
                assert(n.account.take(depth + 1 as int) =~= path.take(depth + 1 as int));
                assert(false);
            }
            let r = add_below(t, path, a, depth).0;
            assert(r.children[k] == other);
            lemma_node_at_child(r, k, q);
        } else {
            let r = add_below(t, path, a, depth).0;
            lemma_node_at_child(r, i, q);
            assert(child.account == path.take(depth + 1 as int));
            if depth + 1 == path.len() {
                let nb = balance_add(child.balance, a)->0;
                assert(r.children[i] == TreeModel { balance: nb, ..child });
                if q.len() == 0 {
                    assert(path.take(depth + 1 as int) =~= path);
                } else {
                    lemma_node_at_same_children(child, TreeModel { balance: nb, ..child }, q);
                    lemma_descendant_paths(child, q);
                }
            } else {
                let c2 = add_below(child, path, a, depth + 1).0;
                lemma_add_keeps_shape(child, path, a, depth + 1, seq![]);
                let nb = balance_add(c2.balance, a)->0;
                assert(r.children[i] == TreeModel { balance: nb, ..c2 });
                if q.len() == 0 {
                    assert(path.take(depth + 1 as int).take(depth + 1 as int) =~= path.take(depth + 1 as int));
                } else {
                    lemma_node_at_same_children(c2, TreeModel { balance: nb, ..c2 }, q);
                    lemma_rollup(child, path, a, depth + 1, q);
                }
            }
        }
    }
}

proof fn lemma_leaf_well_formed(a: Seq<Seq<char>>)
    ensures
        paths_well_formed(leaf(a)),
{
    assert forall|p: Seq<int>| #[trigger] node_at(leaf(a), p) is Some implies ({
        let n = node_at(leaf(a), p)->0;
        forall|i: int|
            0 <= i < n.children.len() ==> n.children[i].account.len() == n.account.len() + 1
                && n.children[i].account.take(n.account.len() as int) == n.account
    }) by {
        if p.len() > 0 {
            assert(node_at(leaf(a), p) is None);
        }
    }
}

proof fn lemma_insert_well_formed_at(t: TreeModel, path: Seq<Seq<char>>, depth: nat, p: Seq<int>)
    requires
        paths_well_formed(t),
        t.account == path.take(depth as int),
        depth <= path.len(),
    ensures
        node_at(insert_path(t, path, depth), p) is Some ==> ({
            let n = node_at(insert_path(t, path, depth), p)->0;
            forall|i: int|
                0 <= i < n.children.len() ==> n.children[i].account.len() == n.account.len() + 1
                    && n.children[i].account.take(n.account.len() as int) == n.account
        }),
    decreases path.len() - depth, p.len(),
{
    assert(node_at(t, seq![]) == Some(t));
    if depth < path.len() {
        let cur = path.take(depth + 1 as int);
        let once = insert_path(t, path, depth);
        assert(cur.len() == depth + 1);
        assert(cur.take(depth as int) =~= path.take(depth as int));
        lemma_find_child_bound(t.children, cur);
        match find_child(t.children, cur) {
            Some(i) => {
                let child = t.children[i];
                lemma_insert_keeps_account(child, path, depth + 1);
                lemma_subtree_properties(t, i);
                if p.len() == 0 {
                    lemma_insert_keeps_account(t, path, depth);
                    assert(node_at(once, p) == Some(once));
                    assert forall|x: int| 0 <= x < once.children.len() implies once.children[x].account.len()
                        == once.account.len() + 1 && once.children[x].account.take(
                        once.account.len() as int,
                    ) == once.account by {
                        assert(once.children.len() == t.children.len());
                        assert(once.children[x].account == t.children[x].account);
                        let root = node_at(t, seq![])->0;
                        assert(root == t);
                        assert(root.children[x].account.len() == root.account.len() + 1);
                    }
                }
                if p.len() > 0 && 0 <= p[0] < once.children.len() {
                    let q = p.drop_first();
                    assert(p =~= seq![p[0]] + q);
                    lemma_node_at_child(once, p[0], q);
                    if p[0] == i {
                        lemma_insert_well_formed_at(child, path, depth + 1, q);
                    } else {
                        lemma_subtree_properties(t, p[0]);
                        lemma_node_at_child(t, p[0], q);
                        assert(node_at(t, seq![p[0]] + q) == node_at(t.children[p[0]], q));
                        if node_at(t.children[p[0]], q) is Some {
                            assert(node_at(t, seq![p[0]] + q) is Some);
                        }
                    }
                }
            },
            None => {
                let n = t.children.len() as int;
                lemma_insert_keeps_account(leaf(cur), path, depth + 1);
                lemma_leaf_well_formed(cur);
                if p.len() == 0 {
                    lemma_insert_keeps_account(t, path, depth);
                    assert(node_at(once, p) == Some(once));
                    assert forall|x: int| 0 <= x < once.children.len() implies once.children[x].account.len()
                        == once.account.len() + 1 && once.children[x].account.take(
                        once.account.len() as int,
                    ) == once.account by {
                        if x < n {
                            assert(once.children[x] == t.children[x]);
                            let root = node_at(t, seq![])->0;
                            assert(root == t);
                            assert(root.children[x].account.len() == root.account.len() + 1);
                            assert(once.account == t.account);
                        } else {
                            assert(x == n);
                            assert(once.children[x] == insert_path(leaf(cur), path, depth + 1));
                            assert(once.children[x].account == cur);
                            assert(t.account.len() == depth);
                            assert(once.account == t.account);
                            assert(once.children[x].account.len() == once.account.len() + 1);
                            assert(once.children[x].account.take(once.account.len() as int) == once.account);
                        }
                    }
                }
                if p.len() > 0 && 0 <= p[0] < once.children.len() {
                    let q = p.drop_first();
                    assert(p =~= seq![p[0]] + q);
                    lemma_node_at_child(once, p[0], q);
                    if p[0] == n {
                        lemma_insert_well_formed_at(leaf(cur), path, depth + 1, q);
                    } else {
                        lemma_node_at_child(t, p[0], q);
                        if node_at(t.children[p[0]], q) is Some {
                            assert(node_at(t, seq![p[0]] + q) is Some);
                        }
                    }
                }
            },
        }
    } else {
        assert(insert_path(t, path, depth) == t);
        if node_at(t, p) is Some {
            assert(node_at(t, p) is Some);
        }
    }
}

/// Adding an account path keeps the paths of the tree well formed.
pub proof fn lemma_add_account_well_formed(t: TreeModel, path: Seq<Seq<char>>)
    requires
        paths_well_formed(t),
        t.account.len() == 0,
    ensures
        paths_well_formed(insert_path(t, path, 0)),
{
    assert(t.account =~= path.take(0));
    assert forall|p: Seq<int>| #[trigger] node_at(insert_path(t, path, 0), p) is Some implies ({
        let n = node_at(insert_path(t, path, 0), p)->0;
        forall|i: int|
            0 <= i < n.children.len() ==> n.children[i].account.len() == n.account.len() + 1
                && n.children[i].account.take(n.account.len() as int) == n.account
    }) by {
        lemma_insert_well_formed_at(t, path, 0, p);
    }
}

/// Adding an amount keeps every path where it was, so the paths stay well formed.
pub proof fn lemma_add_amount_well_formed(t: TreeModel, path: Seq<Seq<char>>, a: CurrencyModel)
    requires
        paths_well_formed(t),
    ensures
        paths_well_formed(add_below(t, path, a, 0).0),
{
    let r = add_below(t, path, a, 0).0;
    assert forall|p: Seq<int>| #[trigger] node_at(r, p) is Some implies ({
        let n = node_at(r, p)->0;
        forall|i: int|
            0 <= i < n.children.len() ==> n.children[i].account.len() == n.account.len() + 1
                && n.children[i].account.take(n.account.len() as int) == n.account
    }) by {
        lemma_add_keeps_shape(t, path, a, 0, p);
        let n = node_at(r, p)->0;
        let o = node_at(t, p)->0;
        assert(node_at(t, p) is Some);
        assert forall|x: int| 0 <= x < n.children.len() implies n.children[x].account.len()
            == n.account.len() + 1 && n.children[x].account.take(n.account.len() as int)
            == n.account by {
            lemma_add_keeps_shape(t, path, a, 0, p.push(x));
            lemma_node_at_push(r, p, x);
            lemma_node_at_push(t, p, x);
            lemma_node_at_single(n, x);
            lemma_node_at_single(o, x);
            assert(node_at(o, seq![x]) is Some);
            assert(n.children[x].account == o.children[x].account);
        }
    }
}

/// Once a path has been added, adding an amount to it finds it: the
/// outcome is either success or an overflow, never a missing path.
pub proof fn lemma_added_path_found(
    t: TreeModel,
    path: Seq<Seq<char>>,
    a: CurrencyModel,
    depth: nat,
)
    requires
        depth < path.len(),
    ensures
        add_below(insert_path(t, path, depth), path, a, depth).1 != Ok::<bool, ()>(false),
    decreases path.len() - depth,
{
    let cur = path.take(depth + 1 as int);
    let once = insert_path(t, path, depth);
    lemma_find_child_bound(t.children, cur);
    match find_child(t.children, cur) {
        Some(i) => {
            let c1 = insert_path(t.children[i], path, depth + 1);
            lemma_insert_keeps_account(t.children[i], path, depth + 1);
            lemma_find_child_update(t.children, cur, i, c1);
            if depth + 1 < path.len() {
                lemma_added_path_found(t.children[i], path, a, depth + 1);
            }
        },
        None => {
            let c1 = insert_path(leaf(cur), path, depth + 1);
            lemma_insert_keeps_account(leaf(cur), path, depth + 1);
            lemma_find_child_push(t.children, cur, c1);
            assert(once.children[t.children.len() as int] == c1);
            if depth + 1 < path.len() {
                lemma_added_path_found(leaf(cur), path, a, depth + 1);
            }
        },
    }
}

} // verus!
