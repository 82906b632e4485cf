//! Pages to print and rules on their order: which updates keep the rules,
//! and how the others are put right.

use crate::text::{
    chars_of, number, numbers, parse_number, pieces, read_numbers, split, Separator,
};
use std::collections::{HashMap, HashSet};
use vstd::prelude::*;

verus! {

/// A rule: the page `page` is printed before the page `before`.
#[derive(Clone, Copy, Debug, PartialEq, Eq, Structural)]
pub struct Rule {
    pub page: u64,
    pub before: u64,
}

/// How two pages stand to one another by the rules.
#[derive(Clone, Copy, Debug, PartialEq, Eq, Structural)]
pub enum PageOrder {
    /// A rule puts the first page before the second.
    Before,
    /// No rule puts the first page before the second, and one puts the second
    /// before the first.
    After,
    /// No rule speaks of the two pages.
    Unordered,
}

/// What a line of the rules says.
#[derive(Clone, Copy, Debug, PartialEq, Eq, Structural)]
pub enum RuleLine {
    /// The line holds no bar: it is passed over.
    Skipped,
    /// The line holds a bar, and what stands before the first bar, or what
    /// stands behind it, is no number.
    Broken,
    /// The line holds a rule.
    Given(Rule),
}

/// The greatest page number.
pub const MAX_PAGE: u64 = 0xffff_ffff;

/// The pairs of pages that the rules order.
pub open spec fn relation_of(rules: Seq<Rule>) -> Set<(u64, u64)> {
    Set::new(|pair: (u64, u64)| rules.contains(Rule { page: pair.0, before: pair.1 }))
}

/// Where a page stands in an update: the last place that holds it.
pub open spec fn last_index(pages: Seq<u64>, page: u64) -> Option<int>
    decreases pages.len(),
{
    if pages.len() == 0 {
        None
    } else if pages.last() == page {
        Some(pages.len() - 1)
    } else {
        last_index(pages.drop_last(), page)
    }
}

/// Whether an update keeps a rule: where it holds both pages of the rule,
/// the first stands before the second.
pub open spec fn keeps(pages: Seq<u64>, rule: Rule) -> bool {
    match (last_index(pages, rule.page), last_index(pages, rule.before)) {
        (Some(a), Some(b)) => a < b,
        _ => true,
    }
}

/// Whether an update keeps every rule.
pub open spec fn valid(pages: Seq<u64>, rules: Seq<Rule>) -> bool {
    forall|k: int| 0 <= k < rules.len() ==> keeps(pages, #[trigger] rules[k])
}

/// An ordered list of pages with one more page: the page goes before the
/// pages at the end of the list that the rules put behind it.
pub open spec fn place(order: Set<(u64, u64)>, sorted: Seq<u64>, page: u64) -> Seq<u64>
    decreases sorted.len(),
{
    if sorted.len() == 0 {
        seq![page]
    } else if order.contains((page, sorted.last())) {
        place(order, sorted.drop_last(), page).push(sorted.last())
    } else {
        sorted.push(page)
    }
}

/// The pages of an update put in order, one after the other.
pub open spec fn arrange(order: Set<(u64, u64)>, pages: Seq<u64>) -> Seq<u64>
    decreases pages.len(),
{
    if pages.len() == 0 {
        Seq::empty()
    } else {
        place(order, arrange(order, pages.drop_last()), pages.last())
    }
}

/// Whether the rules put the `i`-th page of a list before the `j`-th, and
/// not the `j`-th before the `i`-th.
pub open spec fn in_order(order: Set<(u64, u64)>, pages: Seq<u64>, i: int, j: int) -> bool {
    order.contains((pages[i], pages[j])) && !order.contains((pages[j], pages[i]))
}

/// Whether the rules order a whole list of pages: they put each page before
/// every later one, and no later one before an earlier one.
pub open spec fn strictly_ordered(order: Set<(u64, u64)>, pages: Seq<u64>) -> bool {
    forall|i: int, j: int| 0 <= i < j < pages.len() ==> in_order(order, pages, i, j)
}

/// What a line of the rules says: a line without a bar says nothing; in any
/// other line a number stands before the first bar and a number behind it.
pub open spec fn rule_line(line: Seq<char>) -> RuleLine {
    let parts = pieces(line, Separator::Char('|'));
    if parts.len() < 2 {
        RuleLine::Skipped
    } else {
        match (
            number(parts[0], MAX_PAGE),
            number(line.subrange(parts[0].len() as int + 1, line.len() as int), MAX_PAGE),
        ) {
            (Some(page), Some(before)) => RuleLine::Given(Rule { page, before }),
            _ => RuleLine::Broken,
        }
    }
}

/// The rules of some lines; `None` where a line is broken.
pub open spec fn rules_of(lines: Seq<Seq<char>>) -> Option<Seq<Rule>>
    decreases lines.len(),
{
    if lines.len() == 0 {
        Some(Seq::empty())
    } else {
        match (rules_of(lines.drop_last()), rule_line(lines.last())) {
            (Some(rules), RuleLine::Given(rule)) => Some(rules.push(rule)),
            (Some(rules), RuleLine::Skipped) => Some(rules),
            _ => None,
        }
    }
}

/// The pages of an update line: the numbers between its commas.
pub open spec fn update_of(line: Seq<char>) -> Seq<u64> {
    numbers(pieces(line, Separator::Char(',')), MAX_PAGE)
}

/// The first empty line from `from` on that is not the last line.
pub open spec fn blank_line(lines: Seq<Seq<char>>, from: int) -> Option<int>
    decreases lines.len() - from,
{
    if from >= lines.len() - 1 {
        None
    } else if lines[from].len() == 0 {
        Some(from)
    } else {
        blank_line(lines, from + 1)
    }
}

/// The lines of the updates: the lines behind the blank line, without the
/// last line where it is empty.
pub open spec fn update_lines(lines: Seq<Seq<char>>, blank: int) -> Seq<Seq<char>> {
    if lines.last().len() == 0 {
        lines.subrange(blank + 1, lines.len() - 1)
    } else {
        lines.subrange(blank + 1, lines.len() as int)
    }
}

/// What an update adds to the sum: in the first part the middle page of an
/// update that keeps the rules; in the second the middle page of an update
/// that breaks them, once it is put in order. `None` where there is no such
/// page: an empty update in the first part, an update that the rules do not
/// order in the second.
pub open spec fn middle(rules: Seq<Rule>, pages: Seq<u64>, repair: bool) -> Option<u64> {
    if valid(pages, rules) {
        if repair {
            Some(0)
        } else if pages.len() == 0 {
            None
        } else {
            Some(pages[pages.len() as int / 2])
        }
    } else if repair {
        let sorted = arrange(relation_of(rules), pages);
        if strictly_ordered(relation_of(rules), sorted) && sorted.len() > 0 {
            Some(sorted[sorted.len() as int / 2])
        } else {
            None
        }
    } else {
        Some(0)
    }
}

/// The sum of what the updates add; `None` where an update adds nothing it
/// could, or the sum exceeds `u32::MAX`.
pub open spec fn middle_sum(rules: Seq<Rule>, lines: Seq<Seq<char>>, repair: bool) -> Option<u32>
    decreases lines.len(),
{
    if lines.len() == 0 {
        Some(0)
    } else {
        match (
            middle_sum(rules, lines.drop_last(), repair),
            middle(rules, update_of(lines.last()), repair),
        ) {
            (Some(sum), Some(page)) => if sum + page <= u32::MAX {
                Some((sum + page) as u32)
            } else {
                None
            },
            _ => None,
        }
    }
}

/// The sum for a text: the rules stand before its first blank line, the
/// updates behind it. `None` where the text has no blank line between two
/// lines, a rule is broken, or the sum is `None`.
pub open spec fn solve_spec(text: Seq<char>, repair: bool) -> Option<u32> {
    let lines = pieces(text, Separator::Newline);
    match blank_line(lines, 1) {
        None => None,
        Some(blank) => match rules_of(lines.subrange(0, blank)) {
            None => None,
            Some(rules) => middle_sum(rules, update_lines(lines, blank), repair),
        },
    }
}

/// The sum of the middle pages of the updates that keep the rules.
pub open spec fn part_one_spec(text: Seq<char>) -> Option<u32> {
    solve_spec(text, false)
}

/// The sum of the middle pages of the updates that break the rules, once
/// they are put in order.
pub open spec fn part_two_spec(text: Seq<char>) -> Option<u32> {
    solve_spec(text, true)
}

/// Where a page stands, it stands.
pub proof fn lemma_last_index(pages: Seq<u64>, page: u64)
    ensures
        match last_index(pages, page) {
            Some(i) => 0 <= i < pages.len() && pages[i] == page,
            None => !pages.contains(page),
        },
    decreases pages.len(),
{
    if pages.len() > 0 {
        lemma_last_index(pages.drop_last(), page);
        if pages.last() != page {
            match last_index(pages.drop_last(), page) {
                Some(i) => {
                    assert(pages[i] == pages.drop_last()[i]);
                },
                None => {
                    if pages.contains(page) {
                        let i = choose|i: int| 0 <= i < pages.len() && pages[i] == page;
                        assert(pages.drop_last()[i] == page);
                    }
                },
            }
        }
    }
}

/// A list of pages that the rules order keeps the rules, as long as no rule
/// puts a page before itself.
pub proof fn lemma_ordered_keeps_rules(rules: Seq<Rule>, pages: Seq<u64>)
    requires
        strictly_ordered(relation_of(rules), pages),
        forall|k: int| 0 <= k < rules.len() ==> (#[trigger] rules[k]).page != rules[k].before,
    ensures
        valid(pages, rules),
{
    let order = relation_of(rules);
    assert forall|k: int| 0 <= k < rules.len() implies keeps(pages, #[trigger] rules[k]) by {
        let rule = rules[k];
        lemma_last_index(pages, rule.page);
        lemma_last_index(pages, rule.before);
        match (last_index(pages, rule.page), last_index(pages, rule.before)) {
            (Some(i), Some(j)) => {
                assert(rules.contains(Rule { page: rule.page, before: rule.before }));
                assert(order.contains((rule.page, rule.before)));
                if j < i {
                    assert(in_order(order, pages, j, i));
                }
            },
            _ => {},
        }
    }
}

/// Putting a page in its place adds the page and nothing else.
pub proof fn lemma_place_adds(order: Set<(u64, u64)>, sorted: Seq<u64>, page: u64)
    ensures
        place(order, sorted, page).to_multiset() == sorted.to_multiset().insert(page),
    decreases sorted.len(),
{
    broadcast use vstd::seq_lib::group_to_multiset_ensures;

    if sorted.len() > 0 && order.contains((page, sorted.last())) {
        let front = sorted.drop_last();
        lemma_place_adds(order, front, page);
        assert(sorted == front.push(sorted.last()));
        assert(place(order, sorted, page).to_multiset() =~= sorted.to_multiset().insert(page));
    }
}

/// The pages of an update put in order are the pages of the update, each as
/// often as it was there.
pub proof fn lemma_arrange_keeps_pages(order: Set<(u64, u64)>, pages: Seq<u64>)
    ensures
        arrange(order, pages).to_multiset() == pages.to_multiset(),
        arrange(order, pages).len() == pages.len(),
    decreases pages.len(),
{
    broadcast use vstd::seq_lib::group_to_multiset_ensures;

    if pages.len() > 0 {
        let front = pages.drop_last();
        lemma_arrange_keeps_pages(order, front);
        lemma_place_adds(order, arrange(order, front), pages.last());
        assert(pages == front.push(pages.last()));
        assert(arrange(order, pages).to_multiset() =~= pages.to_multiset());
    }
    arrange(order, pages).to_multiset_ensures();
    pages.to_multiset_ensures();
}

/// The number that stands for a pair of pages.
pub open spec fn pair_key(a: u64, b: u64) -> u128 {
    (a as u128 * 0x1_0000_0000_0000_0000 + b as u128) as u128
}

/// The pairs of pages that some rules order, ready to be looked up.
pub struct RuleSet {
    pairs: HashSet<u128>,
}

impl View for RuleSet {
    type V = Set<(u64, u64)>;

    closed spec fn view(&self) -> Set<(u64, u64)> {
        Set::new(|pair: (u64, u64)| self.pairs@.contains(pair_key(pair.0, pair.1)))
    }
}

impl RuleSet {
    /// The pairs that the rules order.
    pub fn new(rules: &Vec<Rule>) -> (book: RuleSet)
        ensures
            book@ == relation_of(rules@),
    {
        let mut pairs: HashSet<u128> = HashSet::new();
        let mut i: usize = 0;
        while i < rules.len()
            invariant
                i <= rules.len(),
                forall|a: u64, b: u64| #[trigger]
                    pairs@.contains(pair_key(a, b)) <==> rules@.take(i as int).contains(
                        Rule { page: a, before: b },
                    ),
            decreases rules.len() - i,
        {
            let rule: Rule = rules[i];
            let key: u128 = rule.page as u128 * 0x1_0000_0000_0000_0000 + rule.before as u128;
            let ghost before = pairs@;
            pairs.insert(key);
            proof {
                let old_rules = rules@.take(i as int);
                let new_rules = rules@.take(i + 1);
                assert(new_rules == old_rules.push(rule));
                assert forall|a: u64, b: u64| #[trigger]
                    pairs@.contains(pair_key(a, b)) <==> new_rules.contains(
                        Rule { page: a, before: b },
                    ) by {
                    let r = Rule { page: a, before: b };
                    if old_rules.contains(r) {
                        let k = choose|k: int| 0 <= k < old_rules.len() && old_rules[k] == r;
                        assert(new_rules[k] == r);
                    }
                    if r == rule {
                        assert(new_rules[i as int] == r);
                    }
                    if new_rules.contains(r) && r != rule {
                        let k = choose|k: int| 0 <= k < new_rules.len() && new_rules[k] == r;
                        assert(old_rules[k] == r);
                    }
                }
            }
            i = i + 1;
        }
        let book = RuleSet { pairs };
        proof {
            assert(rules@.take(rules.len() as int) == rules@);
            assert(book@ =~= relation_of(rules@));
        }
        book
    }

    /// Whether a rule puts the page `a` before the page `b`.
    pub fn precedes(&self, a: u64, b: u64) -> (r: bool)
        ensures
            r == self@.contains((a, b)),
    {
        let key: u128 = a as u128 * 0x1_0000_0000_0000_0000 + b as u128;
        self.pairs.contains(&key)
    }

    /// How the rules order two pages: the first before the second where a
    /// rule says so; else the second before the first where a rule says so;
    /// else neither.
    pub fn compare(&self, a: u64, b: u64) -> (r: PageOrder)
        ensures
            r == (if self@.contains((a, b)) {
                PageOrder::Before
            } else if self@.contains((b, a)) {
                PageOrder::After
            } else {
                PageOrder::Unordered
            }),
    {
        if self.precedes(a, b) {
            PageOrder::Before
        } else if self.precedes(b, a) {
            PageOrder::After
        } else {
            PageOrder::Unordered
        }
    }
}

/// Whether the update keeps every rule: of the two pages of a rule, where
/// the update holds both, the first stands before the second.
pub fn is_valid_update(update_pages: &Vec<u64>, rules: &Vec<Rule>) -> (b: bool)
    ensures
        b == valid(update_pages@, rules@),
{
    let mut positions: HashMap<u64, usize> = HashMap::new();
    let mut i: usize = 0;
    while i < update_pages.len()
        invariant
            i <= update_pages.len(),
            forall|page: u64| #[trigger]
                last_index(update_pages@.take(i as int), page) == (if positions@.contains_key(
                    page,
                ) {
                    Some(positions@[page] as int)
                } else {
                    None
                }),
        decreases update_pages.len() - i,
    {
        let ghost known = positions@;
        positions.insert(update_pages[i], i);
        proof {
            let grown = update_pages@.take(i + 1);
            assert(grown.drop_last() == update_pages@.take(i as int));
            assert(grown.last() == update_pages@[i as int]);
            assert(positions@ == known.insert(update_pages@[i as int], i));
            assert forall|page: u64| #[trigger]
                last_index(grown, page) == (if positions@.contains_key(page) {
                    Some(positions@[page] as int)
                } else {
                    None
                }) by {
                assert(last_index(update_pages@.take(i as int), page) == (if known.contains_key(
                    page,
                ) {
                    Some(known[page] as int)
                } else {
                    None
                }));
            }
        }
        i = i + 1;
    }
    proof {
        assert(update_pages@.take(update_pages.len() as int) == update_pages@);
    }
    let mut k: usize = 0;
    while k < rules.len()
        invariant
            k <= rules.len(),
            forall|page: u64| #[trigger]
                last_index(update_pages@, page) == (if positions@.contains_key(page) {
                    Some(positions@[page] as int)
                } else {
                    None
                }),
            forall|j: int| 0 <= j < k ==> keeps(update_pages@, #[trigger] rules@[j]),
        decreases rules.len() - k,
    {
        let rule: Rule = rules[k];
        match (positions.get(&rule.page), positions.get(&rule.before)) {
            (Some(pos_page), Some(pos_before)) => {
                if *pos_page >= *pos_before {
                    proof {
                        assert(!keeps(update_pages@, rules@[k as int]));
                    }
                    return false;
                }
            },
            _ => {},
        }
        k = k + 1;
    }
    true
}

/// Puts the pages of an update in order: each page in turn goes before the
/// pages at the end of the list that the rules put behind it.
pub fn arrange_pages(pages: &Vec<u64>, book: &RuleSet) -> (sorted: Vec<u64>)
    ensures
        sorted@ == arrange(book@, pages@),
{
    let mut sorted: Vec<u64> = Vec::new();
    let mut i: usize = 0;
    proof {
        assert(pages@.take(0) =~= Seq::<u64>::empty());
    }
    while i < pages.len()
        invariant
            i <= pages.len(),
            sorted@ == arrange(book@, pages@.take(i as int)),
        decreases pages.len() - i,
    {
        let page: u64 = pages[i];
        let ghost before = sorted@;
        let mut at: usize = sorted.len();
        let mut moving: bool = true;
        proof {
            assert(before.take(at as int) == before);
            assert(before.skip(at as int) =~= Seq::<u64>::empty());
            assert(place(book@, before, page) =~= place(book@, before.take(at as int), page)
                + before.skip(at as int));
        }
        while moving && at > 0
            invariant
                at <= sorted.len(),
                sorted@ == before,
                place(book@, before, page) == place(book@, before.take(at as int), page)
                    + before.skip(at as int),
                !moving ==> at > 0 && !book@.contains((page, before[at - 1])),
            decreases at + if moving { 1int } else { 0int },
        {
            if book.precedes(page, sorted[at - 1]) {
                proof {
                    let head = before.take(at as int);
                    assert(head.drop_last() == before.take(at - 1));
                    assert(place(book@, head.drop_last(), page).push(head.last()) + before.skip(
                        at as int,
                    ) =~= place(book@, before.take(at - 1), page) + before.skip(at - 1));
                }
                at = at - 1;
            } else {
                moving = false;
            }
        }
        proof {
            let head = before.take(at as int);
            if at == 0 {
                assert(head =~= Seq::<u64>::empty());
            }
            assert(place(book@, head, page) == head.push(page));
            assert(head.push(page) + before.skip(at as int) =~= before.insert(at as int, page));
            assert(pages@.take(i + 1).drop_last() == pages@.take(i as int));
        }
        sorted.insert(at, page);
        i = i + 1;
    }
    proof {
        assert(pages@.take(pages.len() as int) == pages@);
    }
    sorted
}

/// Whether the rules put each page of the list before every later one, and
/// no later one before an earlier one.
pub fn is_strictly_ordered(pages: &Vec<u64>, book: &RuleSet) -> (b: bool)
    ensures
        b == strictly_ordered(book@, pages@),
{
    let mut j: usize = 0;
    while j < pages.len()
        invariant
            j <= pages.len(),
            forall|a: int, b: int| 0 <= a < b < j ==> in_order(book@, pages@, a, b),
        decreases pages.len() - j,
    {
        let mut i: usize = 0;
        while i < j
            invariant
                i <= j < pages.len(),
                forall|a: int, b: int| 0 <= a < b < j ==> in_order(book@, pages@, a, b),
                forall|a: int| 0 <= a < i ==> in_order(book@, pages@, a, j as int),
            decreases j - i,
        {
            if !book.precedes(pages[i], pages[j]) || book.precedes(pages[j], pages[i]) {
                proof {
                    assert(!in_order(book@, pages@, i as int, j as int));
                }
                return false;
            }
            i = i + 1;
        }
        j = j + 1;
    }
    true
}

/// Reads one line of the rules.
pub fn read_rule(chars: &Vec<char>, from: usize, to: usize) -> (r: RuleLine)
    requires
        from <= to <= chars.len(),
    ensures
        r == rule_line(chars@.subrange(from as int, to as int)),
{
    let ghost line = chars@.subrange(from as int, to as int);
    let parts = split(chars, from, to, Separator::Char('|'));
    if parts.len() < 2 {
        return RuleLine::Skipped;
    }
    let bar: usize = parts[0].1;
    proof {
        lemma_first_piece(line, Separator::Char('|'));
        assert(chars@.subrange(from as int, bar as int).len() == bar - from);
        assert(chars@.subrange(bar + 1, to as int) =~= line.subrange(
            bar - from + 1,
            line.len() as int,
        ));
    }
    match (parse_number(chars, from, bar, MAX_PAGE), parse_number(chars, bar + 1, to, MAX_PAGE)) {
        (Some(page), Some(before)) => RuleLine::Given(Rule { page, before }),
        _ => RuleLine::Broken,
    }
}

/// The first piece and the separators fit into the text.
proof fn lemma_first_piece(s: Seq<char>, sep: Separator)
    ensures
        pieces(s, sep).len() >= 1,
        pieces(s, sep)[0].len() + pieces(s, sep).len() - 1 <= s.len(),
    decreases s.len(),
{
    if s.len() > 0 {
        lemma_first_piece(s.drop_last(), sep);
    }
}

/// Where the rules end: the first empty line, from the second line on, that
/// is not the last.
fn find_blank(chars: &Vec<char>, lines: &Vec<(usize, usize)>) -> (r: Option<usize>)
    requires
        lines@.len() == pieces(chars@, Separator::Newline).len(),
        lines@.len() >= 1,
        forall|k: int|
            0 <= k < lines@.len() ==> (#[trigger] lines@[k]).0 <= lines@[k].1 <= chars.len()
                && chars@.subrange(lines@[k].0 as int, lines@[k].1 as int) == pieces(
                chars@,
                Separator::Newline,
            )[k],
    ensures
        match r {
            Some(k) => blank_line(pieces(chars@, Separator::Newline), 1) == Some(k as int) && 1
                <= k < lines.len() - 1,
            None => blank_line(pieces(chars@, Separator::Newline), 1) is None,
        },
{
    let ghost all = pieces(chars@, Separator::Newline);
    let mut k: usize = 1;
    while k < lines.len() - 1
        invariant
            1 <= k,
            lines@.len() >= 1,
            lines@.len() == all.len(),
            all == pieces(chars@, Separator::Newline),
            forall|j: int|
                0 <= j < lines@.len() ==> (#[trigger] lines@[j]).0 <= lines@[j].1 <= chars.len()
                    && chars@.subrange(lines@[j].0 as int, lines@[j].1 as int) == all[j],
            blank_line(all, 1) == blank_line(all, k as int),
        decreases lines.len() - k,
    {
        let line: (usize, usize) = lines[k];
        if line.0 == line.1 {
            proof {
                assert(chars@.subrange(line.0 as int, line.1 as int).len() == 0);
            }
            return Some(k);
        }
        proof {
            assert(chars@.subrange(line.0 as int, line.1 as int).len() == line.1 - line.0);
        }
        k = k + 1;
    }
    None
}

fn solve(input: &str, repair: bool) -> (r: Option<u32>)
    ensures
        r == solve_spec(input@, repair),
{
    let chars = chars_of(input);
    proof {
        assert(chars@.subrange(0, chars.len() as int) == chars@);
    }
    let lines = split(&chars, 0, chars.len(), Separator::Newline);
    let ghost all = pieces(chars@, Separator::Newline);
    let blank: usize = match find_blank(&chars, &lines) {
        Some(k) => k,
        None => {
            return None;
        },
    };
    let mut rules: Vec<Rule> = Vec::new();
    let mut i: usize = 0;
    let ghost rule_lines = all.subrange(0, blank as int);
    proof {
        assert(rule_lines.take(0) =~= Seq::<Seq<char>>::empty());
    }
    while i < blank
        invariant
            i <= blank < lines.len(),
            lines@.len() == all.len(),
            all == pieces(input@, Separator::Newline),
            blank_line(all, 1) == Some(blank as int),
            rule_lines == all.subrange(0, blank as int),
            forall|j: int|
                0 <= j < lines@.len() ==> (#[trigger] lines@[j]).0 <= lines@[j].1 <= chars.len()
                    && chars@.subrange(lines@[j].0 as int, lines@[j].1 as int) == all[j],
            rules_of(rule_lines.take(i as int)) == Some(rules@),
        decreases blank - i,
    {
        proof {
            assert(rule_lines.take(i + 1).drop_last() == rule_lines.take(i as int));
            assert(rule_lines.take(i + 1).last() == all[i as int]);
        }
        let line: (usize, usize) = lines[i];
        match read_rule(&chars, line.0, line.1) {
            RuleLine::Given(rule) => {
                rules.push(rule);
            },
            RuleLine::Skipped => {},
            RuleLine::Broken => {
                proof {
                    assert(rules_of(rule_lines.take(i + 1)) is None);
                    lemma_broken_rules(rule_lines, i + 1);
                }
                return None;
            },
        }
        i = i + 1;
    }
    proof {
        assert(rule_lines.take(blank as int) == rule_lines);
    }
    let book = RuleSet::new(&rules);
    let last: (usize, usize) = lines[lines.len() - 1];
    let end: usize = if last.0 == last.1 {
        lines.len() - 1
    } else {
        lines.len()
    };
    let ghost updates = update_lines(all, blank as int);
    proof {
        assert(chars@.subrange(last.0 as int, last.1 as int).len() == last.1 - last.0);
        assert(updates == all.subrange(blank + 1, end as int));
        assert(updates.take(0) =~= Seq::<Seq<char>>::empty());
    }
    let mut sum: Option<u32> = Some(0);
    let mut k: usize = blank + 1;
    while k < end
        invariant
            blank + 1 <= k <= end <= lines.len(),
            lines@.len() == all.len(),
            all == pieces(input@, Separator::Newline),
            blank_line(all, 1) == Some(blank as int),
            updates == all.subrange(blank + 1, end as int),
            book@ == relation_of(rules@),
            forall|j: int|
                0 <= j < lines@.len() ==> (#[trigger] lines@[j]).0 <= lines@[j].1 <= chars.len()
                    && chars@.subrange(lines@[j].0 as int, lines@[j].1 as int) == all[j],
            sum == middle_sum(rules@, updates.take(k - blank - 1), repair),
        decreases end - k,
    {
        proof {
            assert(updates.take(k - blank).drop_last() == updates.take(k - blank - 1));
            assert(updates.take(k - blank).last() == all[k as int]);
        }
        let line: (usize, usize) = lines[k];
        let pages = read_numbers(&chars, line.0, line.1, Separator::Char(','), MAX_PAGE);
        let page: Option<u64> = middle_page(&pages, &rules, &book, repair);
        sum = match (sum, page) {
            (Some(a), Some(b)) => if b <= (u32::MAX - a) as u64 {
                Some(a + b as u32)
            } else {
                None
            },
            _ => None,
        };
        k = k + 1;
    }
    proof {
        assert(updates.take(updates.len() as int) == updates);
    }
    sum
}

/// A broken line breaks the rules, whatever follows it.
proof fn lemma_broken_rules(lines: Seq<Seq<char>>, k: int)
    requires
        0 <= k <= lines.len(),
        rules_of(lines.take(k)) is None,
    ensures
        rules_of(lines) is None,
    decreases lines.len() - k,
{
    if k < lines.len() {
        assert(lines.take(k + 1).drop_last() == lines.take(k));
        lemma_broken_rules(lines, k + 1);
    } else {
        assert(lines.take(k) == lines);
    }
}

/// What an update adds to the sum: see [`middle`].
pub fn middle_page(pages: &Vec<u64>, rules: &Vec<Rule>, book: &RuleSet, repair: bool) -> (r:
    Option<u64>)
    requires
        book@ == relation_of(rules@),
    ensures
        r == middle(rules@, pages@, repair),
{
    if is_valid_update(pages, rules) {
        if repair {
            Some(0)
        } else if pages.len() == 0 {
            None
        } else {
            Some(pages[pages.len() / 2])
        }
    } else if repair {
        let sorted = arrange_pages(pages, book);
        if is_strictly_ordered(&sorted, book) && sorted.len() > 0 {
            Some(sorted[sorted.len() / 2])
        } else {
            None
        }
    } else {
        Some(0)
    }
}

/// Sums the middle pages of the updates of `input` that keep the rules of
/// `input`.
pub fn part_one(input: &str) -> (r: Option<u32>)
    ensures
        r == part_one_spec(input@),
{
    solve(input, false)
}

/// Puts the updates of `input` that break the rules of `input` in order
/// and sums their middle pages.
pub fn part_two(input: &str) -> (r: Option<u32>)
    ensures
        r == part_two_spec(input@),
{
    solve(input, true)
}

} // verus!
