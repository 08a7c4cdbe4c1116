//! Where a node sits in the hardware: its card (siblings) and its blade (cousins).
use vstd::prelude::*;
use crate::digits::{
    all_digits, digit_of, digits_value, is_digit, lemma_digits_value_prefix, push_number,
    spell_number,
};

verus! {

/// A family of nodes: a name prefix followed by a number.
///
/// `board` is the number of nodes on one card, `slot` the number on one blade.
pub struct NodeType {
    pub prefix: String,
    pub digits: Option<usize>,
    pub board: Option<u32>,
    pub first_num: Option<u32>,
    pub last_num: Option<u32>,
    pub slot: Option<u32>,
}

pub open spec fn starts_with(s: Seq<char>, p: Seq<char>) -> bool {
    p.len() <= s.len() && s.subrange(0, p.len() as int) == p
}

/// What follows `prefix` in `target`.
pub open spec fn number_part(prefix: Seq<char>, target: Seq<char>) -> Seq<char> {
    target.subrange(prefix.len() as int, target.len() as int)
}

/// Whether the pattern made of `prefix` and a run of digits can be built.
pub uninterp spec fn digit_pattern_compiles(prefix: Seq<char>) -> bool;

/// Relies on regex::escape, regex::Regex::new and regex::Regex::is_match: the pattern
/// `^` + escaped prefix + `\d+$` matches exactly the texts made of the prefix and one or
/// more characters of the Unicode digit class, which holds the ASCII digits.
#[verifier::external_body]
fn matches_digit_pattern(prefix: &str, target: &str) -> (r: bool)
    ensures
        r ==> starts_with(target@, prefix@) && number_part(prefix@, target@).len() > 0
            && digit_pattern_compiles(prefix@),
        starts_with(target@, prefix@) && number_part(prefix@, target@).len() > 0 && all_digits(
            number_part(prefix@, target@),
        ) && digit_pattern_compiles(prefix@) ==> r,
{
    match regex::Regex::new(&format!(r"^{}\d+$", regex::escape(prefix))) {
        Ok(re) => re.is_match(target),
        Err(_) => false,
    }
}

/// Whether `target` is spelled as `nt`'s prefix followed by the right count of digits.
pub open spec fn spelled_as(nt: NodeType, target: Seq<char>) -> bool {
    let rest = number_part(nt.prefix@, target);
    &&& starts_with(target, nt.prefix@)
    &&& rest.len() > 0
    &&& all_digits(rest)
    &&& (nt.digits matches Some(d) ==> rest.len() == d)
}

/// The number in a name of type `nt`.
pub open spec fn node_number(nt: NodeType, target: Seq<char>) -> nat {
    digits_value(number_part(nt.prefix@, target))
}

/// Whether `target` is a node of type `nt`.
pub open spec fn type_admits(nt: NodeType, target: Seq<char>) -> bool {
    &&& spelled_as(nt, target)
    &&& digit_pattern_compiles(nt.prefix@)
    &&& node_number(nt, target) <= u32::MAX
    &&& (match nt.first_num {
        Some(f) => f <= node_number(nt, target),
        None => 1 <= node_number(nt, target),
    })
    &&& (nt.last_num matches Some(l) ==> node_number(nt, target) <= l)
}

/// The first node type of `types` that admits `target`: earlier entries take precedence.
pub open spec fn first_admitting(types: Seq<NodeType>, target: Seq<char>) -> Option<int>
    decreases types.len(),
{
    if types.len() == 0 {
        None
    } else {
        match first_admitting(types.drop_last(), target) {
            Some(i) => Some(i),
            None => if type_admits(types.last(), target) {
                Some(types.len() - 1)
            } else {
                None
            },
        }
    }
}

pub proof fn lemma_first_admitting_bounds(types: Seq<NodeType>, target: Seq<char>)
    ensures
        first_admitting(types, target) matches Some(i) ==> 0 <= i < types.len() && type_admits(
            types[i],
            target,
        ),
        first_admitting(types, target) is None <==> forall|j: int|
            0 <= j < types.len() ==> !type_admits(#[trigger] types[j], target),
    decreases types.len(),
{
    if types.len() > 0 {
        lemma_first_admitting_bounds(types.drop_last(), target);
        assert forall|j: int| 0 <= j < types.len() - 1 implies types.drop_last()[j] == types[j] by {}
    }
}

pub open spec fn view_names(v: Seq<String>) -> Seq<Seq<char>> {
    v.map_values(|s: String| s@)
}

/// The first node number of the group of `size` nodes that holds node `num`.
pub open spec fn group_start(num: nat, size: nat) -> nat {
    (((num - 1) as nat / size) * size + 1) as nat
}

/// The nodes grouped with node `target` (number `num`, type `nt`) in groups of `size`.
///
/// A group of one, and node zero, which no group formula covers, give `target` alone.
pub open spec fn related(nt: NodeType, target: Seq<char>, num: nat, size: nat) -> Seq<Seq<char>> {
    if size > 1 && num >= 1 {
        Seq::new(
            size,
            |k: int| nt.prefix@ + spell_number((group_start(num, size) + k) as nat, nt.digits),
        )
    } else {
        seq![target]
    }
}

pub open spec fn card_size(nt: NodeType) -> nat {
    match nt.board {
        Some(b) => b as nat,
        None => 1,
    }
}

pub open spec fn blade_size(nt: NodeType) -> nat {
    match nt.slot {
        Some(s) => s as nat,
        None => card_size(nt),
    }
}

/// Node layouts given by a list of node types.
pub struct RegexCluster {
    pub node_types: Vec<NodeType>,
    pub sched: crate::conf::Scheduler,
}

/// What follows the pattern match for node type `nt`: where the pattern matched `target`
/// (`matched`), the node number, if `target` is spelled as `nt` asks and its number lies
/// in `nt`'s range.
pub fn admits_after_match(nt: &NodeType, target: &str, matched: bool) -> (r: Option<u32>)
    ensures
        r is Some <==> matched && spelled_as(*nt, target@) && node_number(*nt, target@) <= u32::MAX
            && (match nt.first_num {
            Some(f) => f <= node_number(*nt, target@),
            None => 1 <= node_number(*nt, target@),
        }) && (nt.last_num matches Some(l) ==> node_number(*nt, target@) <= l),
        r matches Some(n) ==> n == node_number(*nt, target@),
{
    if !matched || !crate::text::starts_with_text(target, nt.prefix.as_str()) {
        return None;
    }
    if let Some(num) = RegexCluster::parse_number(nt, target) {
        let lo = match nt.first_num {
            Some(f) => f,
            None => 1,
        };
        if lo <= num {
            match nt.last_num {
                Some(last) => {
                    if num <= last {
                        return Some(num);
                    }
                },
                None => {
                    return Some(num);
                },
            }
        }
    }
    None
}

impl RegexCluster {
    pub open spec fn types(&self) -> Seq<NodeType> {
        self.node_types@
    }

    pub open spec fn spec_real_node(&self, target: Seq<char>) -> bool {
        first_admitting(self.types(), target) is Some
    }

    pub open spec fn spec_siblings(&self, target: Seq<char>) -> Seq<Seq<char>> {
        match first_admitting(self.types(), target) {
            Some(i) => related(
                self.types()[i],
                target,
                node_number(self.types()[i], target),
                card_size(self.types()[i]),
            ),
            None => Seq::empty(),
        }
    }

    pub open spec fn spec_cousins(&self, target: Seq<char>) -> Seq<Seq<char>> {
        match first_admitting(self.types(), target) {
            Some(i) => related(
                self.types()[i],
                target,
                node_number(self.types()[i], target),
                blade_size(self.types()[i]),
            ),
            None => Seq::empty(),
        }
    }

    pub fn new(node_types: Vec<NodeType>, sched: crate::conf::Scheduler) -> (r: Self)
        ensures
            r.types() == node_types@,
            r.sched == sched,
    {
        Self { sched, node_types }
    }

    /// The number that `target` carries after `prefix`, if it is spelled as
    /// `nt` asks and fits in a `u32`.
    fn parse_number(nt: &NodeType, target: &str) -> (r: Option<u32>)
        requires
            starts_with(target@, nt.prefix@),
        ensures
            r matches Some(n) ==> spelled_as(*nt, target@) && n == node_number(*nt, target@),
            r is None ==> !spelled_as(*nt, target@) || node_number(*nt, target@) > u32::MAX,
    {
        let plen = nt.prefix.as_str().unicode_len();
        let tlen = target.unicode_len();
        let ghost rest = number_part(nt.prefix@, target@);
        if plen == tlen {
            return None;
        }
        if let Some(d) = nt.digits {
            if tlen - plen != d {
                return None;
            }
        }
        let mut acc: u64 = 0;
        let mut k: usize = plen;
        while k < tlen
            invariant
                plen <= k <= tlen,
                tlen == target@.len(),
                plen == nt.prefix@.len(),
                rest == target@.subrange(plen as int, tlen as int),
                all_digits(target@.subrange(plen as int, k as int)),
                acc == digits_value(target@.subrange(plen as int, k as int)),
                acc <= u32::MAX,
            decreases tlen - k,
        {
            let c = target.get_char(k);
            if !('0' <= c && c <= '9') {
                assert(!is_digit(rest[k - plen]));
                return None;
            }
            let d = digit_of(c);
            proof {
                let s = target@.subrange(plen as int, k + 1);
                assert(s.drop_last() =~= target@.subrange(plen as int, k as int));
                assert(s.last() == c);
            }
            acc = acc * 10 + d;
            k = k + 1;
            if acc > 0xffff_ffff {
                proof {
                    assert(rest.subrange(0, k - plen) =~= target@.subrange(plen as int, k as int));
                    lemma_digits_value_prefix(rest, k - plen);
                }
                return None;
            }
        }
        assert(rest =~= target@.subrange(plen as int, k as int));
        Some(acc as u32)
    }

    /// Index and node number of the node type that `target` belongs to.
    fn get_node_type(&self, target: &str) -> (r: Option<(usize, u32)>)
        ensures
            r matches Some((i, n)) ==> first_admitting(self.types(), target@) == Some(i as int)
                && n == node_number(self.types()[i as int], target@),
            r is None ==> first_admitting(self.types(), target@) is None,
    {
        let mut i: usize = 0;
        while i < self.node_types.len()
            invariant
                i <= self.types().len(),
                first_admitting(self.types().subrange(0, i as int), target@) is None,
            decreases self.types().len() - i,
        {
            let nt = &self.node_types[i];
            let found = admits_after_match(nt, target, matches_digit_pattern(nt.prefix.as_str(), target));
            proof {
                let s = self.types().subrange(0, i + 1);
                assert(s.drop_last() =~= self.types().subrange(0, i as int));
                assert(s.last() == *nt);
            }
            if let Some(num) = found {
                proof {
                    lemma_prefix_first(self.types(), target@, i as int);
                }
                return Some((i, num));
            }
            i = i + 1;
        }
        assert(self.types().subrange(0, i as int) =~= self.types());
        None
    }
}

/// Names of the `size` nodes in the group of node `num`, or `target` alone.
fn get_related(target: &str, nt: &NodeType, num: u32, size: u32) -> (r: Vec<String>)
    ensures
        view_names(r@) == related(*nt, target@, num as nat, size as nat),
{
    if size > 1 && num >= 1 {
        let q: u32 = (num - 1) / size;
        proof {
            vstd::arithmetic::div_mod::lemma_fundamental_div_mod((num - 1) as int, size as int);
            assert(q * size <= num - 1) by (nonlinear_arith)
                requires
                    (num - 1) as int == size * q + (num - 1) as int % size as int,
                    (num - 1) as int % size as int >= 0,
            ;
        }
        let start: u64 = (q * size) as u64 + 1;
        assert(start == group_start(num as nat, size as nat));
        let mut out: Vec<String> = Vec::new();
        let mut k: u32 = 0;
        while k < size
            invariant
                k <= size,
                start == group_start(num as nat, size as nat),
                start <= num,
                view_names(out@) =~= Seq::new(
                    k as nat,
                    |j: int| nt.prefix@ + spell_number((start + j) as nat, nt.digits),
                ),
            decreases size - k,
        {
            let mut name = String::from_str(nt.prefix.as_str());
            push_number(&mut name, start + k as u64, nt.digits);
            let ghost prev = out@;
            out.push(name);
            proof {
                assert(out@ =~= prev.push(name));
                assert(view_names(out@) =~= view_names(prev).push(name@));
            }
            k = k + 1;
        }
        out
    } else {
        let mut out: Vec<String> = Vec::new();
        out.push(String::from_str(target));
        assert(view_names(out@) =~= seq![target@]);
        out
    }
}

impl RegexCluster {
    /// The nodes on the same card as `target`, `target` among them; empty for a name
    /// that is no node.
    pub fn siblings(&self, target: &str) -> (r: Vec<String>)
        ensures
            view_names(r@) == self.spec_siblings(target@),
    {
        proof {
            lemma_first_admitting_bounds(self.types(), target@);
        }
        match self.get_node_type(target) {
            Some((i, num)) => {
                let nt = &self.node_types[i];
                let size = match nt.board {
                    Some(b) => b,
                    None => 1,
                };
                get_related(target, nt, num, size)
            },
            None => Vec::new(),
        }
    }

    /// The nodes on the same blade as `target`; empty for a name that is no node.
    pub fn cousins(&self, target: &str) -> (r: Vec<String>)
        ensures
            view_names(r@) == self.spec_cousins(target@),
    {
        proof {
            lemma_first_admitting_bounds(self.types(), target@);
        }
        match self.get_node_type(target) {
            Some((i, num)) => {
                let nt = &self.node_types[i];
                let size = match nt.slot {
                    Some(s) => s,
                    None => match nt.board {
                        Some(b) => b,
                        None => 1,
                    },
                };
                get_related(target, nt, num, size)
            },
            None => Vec::new(),
        }
    }

    /// Whether some node type admits `target`.
    pub fn real_node(&self, target: &str) -> (r: bool)
        ensures
            r == self.spec_real_node(target@),
    {
        self.get_node_type(target).is_some()
    }
}

proof fn lemma_prefix_first(types: Seq<NodeType>, target: Seq<char>, i: int)
    requires
        0 <= i < types.len(),
        first_admitting(types.subrange(0, i + 1), target) == Some(i),
    ensures
        first_admitting(types, target) == Some(i),
    decreases types.len(),
{
    if types.len() > i + 1 {
        assert(types.drop_last().subrange(0, i + 1) =~= types.subrange(0, i + 1));
        lemma_prefix_first(types.drop_last(), target, i);
    } else {
        assert(types.subrange(0, i + 1) =~= types);
    }
}

} // verus!
