//! The separator registry: which characters split a text, and which of them
//! are kept as tokens of their own.

use vstd::prelude::*;

verus! {

/// A single boundary character (`symbol`) together with the choice whether
/// the character itself survives as a token (`keep`).
pub struct Separator {
    pub symbol: char,
    pub keep: bool,
}

impl Separator {
    pub fn new(symbol: char, keep: bool) -> (separator: Separator)
        ensures
            separator.symbol == symbol,
            separator.keep == keep,
    {
        Separator { symbol, keep }
    }
}

/// No two entries of the sequence share a symbol.
pub open spec fn unique_symbols(s: Seq<Separator>) -> bool {
    forall|i: int, j: int| 0 <= i < j < s.len() ==> s[i].symbol != s[j].symbol
}

/// A sequence of separators seen as a mathematical map from boundary
/// character to its keep flag; a later entry overrides an earlier one.
pub open spec fn sep_map(s: Seq<Separator>) -> Map<char, bool>
    decreases s.len(),
{
    if s.len() == 0 {
        Map::empty()
    } else {
        sep_map(s.drop_last()).insert(s.last().symbol, s.last().keep)
    }
}

/// The registry a sequence of (symbol string, keep flag) pairs describes:
/// a pair with an empty symbol string is ignored, any other pair registers
/// the first character of its string, and a later pair wins over an earlier
/// one with the same first character.
pub open spec fn reg_of_pairs(ps: Seq<(Seq<char>, bool)>) -> Map<char, bool>
    decreases ps.len(),
{
    if ps.len() == 0 {
        Map::empty()
    } else {
        let m = reg_of_pairs(ps.drop_last());
        if ps.last().0.len() == 0 {
            m
        } else {
            m.insert(ps.last().0[0], ps.last().1)
        }
    }
}

/// The view of a vector of (string, flag) pairs as (character sequence,
/// flag) pairs.
pub open spec fn pairs_view(ps: Seq<(&str, bool)>) -> Seq<(Seq<char>, bool)> {
    ps.map_values(|p: (&str, bool)| (p.0@, p.1))
}

/// The collection of configured separators, unique by symbol.
///
/// Its abstract value (the view) is a `Map<char, bool>` from boundary
/// character to keep flag.
pub struct Filter {
    separators: Vec<Separator>,
}

impl View for Filter {
    type V = Map<char, bool>;

    closed spec fn view(&self) -> Map<char, bool> {
        sep_map(self.separators@)
    }
}

/// A symbol occurs in `sep_map(s)` exactly when some entry of `s` carries it.
proof fn lemma_sep_map_domain(s: Seq<Separator>, c: char)
    ensures
        sep_map(s).contains_key(c) <==> exists|i: int| 0 <= i < s.len() && s[i].symbol == c,
    decreases s.len(),
{
    if s.len() > 0 {
        lemma_sep_map_domain(s.drop_last(), c);
        if sep_map(s).contains_key(c) {
            if s.last().symbol != c {
                let i = choose|i: int| 0 <= i < s.len() - 1 && s.drop_last()[i].symbol == c;
                assert(s[i].symbol == c);
            }
        }
        if exists|i: int| 0 <= i < s.len() && s[i].symbol == c {
            let i = choose|i: int| 0 <= i < s.len() && s[i].symbol == c;
            if i < s.len() - 1 {
                assert(s.drop_last()[i].symbol == c);
            }
        }
    }
}

/// Under unique symbols, the map agrees with every entry of the sequence.
proof fn lemma_sep_map_entry(s: Seq<Separator>, i: int)
    requires
        unique_symbols(s),
        0 <= i < s.len(),
    ensures
        sep_map(s).contains_key(s[i].symbol),
        sep_map(s)[s[i].symbol] == s[i].keep,
    decreases s.len(),
{
    if i == s.len() - 1 {
        assert(s.last() == s[i]);
    } else {
        assert(unique_symbols(s.drop_last()));
        assert(s.drop_last()[i] == s[i]);
        lemma_sep_map_entry(s.drop_last(), i);
        assert(s.last().symbol != s[i].symbol);
    }
}

/// Under unique symbols, the sequence's length is the number of distinct
/// registered symbols.
proof fn lemma_sep_map_len(s: Seq<Separator>)
    requires
        unique_symbols(s),
    ensures
        sep_map(s).dom().finite(),
        sep_map(s).dom().len() == s.len(),
    decreases s.len(),
{
    if s.len() > 0 {
        assert(unique_symbols(s.drop_last()));
        lemma_sep_map_len(s.drop_last());
        lemma_sep_map_domain(s.drop_last(), s.last().symbol);
        assert(!sep_map(s.drop_last()).contains_key(s.last().symbol));
        assert(sep_map(s).dom() =~= sep_map(s.drop_last()).dom().insert(s.last().symbol));
    }
}

impl Filter {
    /// The registry's internal invariant: no two entries share a symbol.
    pub closed spec fn wf(&self) -> bool {
        unique_symbols(self.separators@)
    }

    /// Builds a registry from (symbol string, keep flag) pairs, in order.
    ///
    /// Only the first character of each symbol string is registered; a pair
    /// with an empty string is silently ignored, and for duplicate symbols
    /// the last pair of the sequence wins.
    pub fn new(separators: Vec<(&str, bool)>) -> (filter: Filter)
        ensures
            filter.wf(),
            filter@ == reg_of_pairs(pairs_view(separators@)),
    {
        let ghost all = pairs_view(separators@);
        let mut fixed_separators: Vec<Separator> = Vec::new();
        let n = separators.len();
        let mut idx: usize = 0;
        proof {
            assert(all.take(0) =~= Seq::<(Seq<char>, bool)>::empty());
        }
        while idx < n
            invariant
                idx <= n,
                n == separators@.len(),
                all == pairs_view(separators@),
                unique_symbols(fixed_separators@),
                sep_map(fixed_separators@) == reg_of_pairs(all.take(idx as int)),
            decreases n - idx,
        {
            let pair = separators[idx];
            let ghost before = sep_map(fixed_separators@);
            if !pair.0.is_empty() {
                let symbol = pair.0.get_char(0);
                upsert(&mut fixed_separators, symbol, pair.1);
            }
            proof {
                assert(all[idx as int] == (pair.0@, pair.1));
                assert(all.take(idx as int + 1).drop_last() =~= all.take(idx as int));
                assert(all.take(idx as int + 1).last() == all[idx as int]);
                if pair.0@.len() == 0 {
                    assert(reg_of_pairs(all.take(idx as int + 1)) == before);
                } else {
                    assert(reg_of_pairs(all.take(idx as int + 1)) == before.insert(
                        pair.0@[0],
                        pair.1,
                    ));
                }
            }
            idx += 1;
        }
        proof {
            assert(all.take(n as int) =~= all);
        }
        Filter { separators: fixed_separators }
    }

    /// Returns `Some(keep)` when `character` is a registered separator whose
    /// keep flag is `keep`, and `None` when it is no separator.
    pub fn contains(&self, character: char) -> (found: Option<bool>)
        requires
            self.wf(),
        ensures
            found == (if self@.contains_key(character) {
                Some(self@[character])
            } else {
                None::<bool>
            }),
    {
        let n = self.separators.len();
        let mut idx: usize = 0;
        while idx < n
            invariant
                idx <= n,
                n == self.separators@.len(),
                self.wf(),
                forall|j: int| 0 <= j < idx ==> self.separators@[j].symbol != character,
            decreases n - idx,
        {
            if self.separators[idx].symbol == character {
                proof {
                    lemma_sep_map_entry(self.separators@, idx as int);
                }
                return Some(self.separators[idx].keep);
            }
            idx += 1;
        }
        proof {
            lemma_sep_map_domain(self.separators@, character);
        }
        None
    }

    /// Inserts or overwrites the entry for the first character of the given
    /// symbol string; an empty string is silently ignored.
    pub fn add_separator(&mut self, character: (&str, bool))
        requires
            old(self).wf(),
        ensures
            final(self).wf(),
            character.0@.len() == 0 ==> final(self)@ == old(self)@,
            character.0@.len() > 0 ==> final(self)@ == old(self)@.insert(
                character.0@[0],
                character.1,
            ),
    {
        if !character.0.is_empty() {
            let symbol = character.0.get_char(0);
            upsert(&mut self.separators, symbol, character.1);
        }
    }

    /// The count of distinct registered symbols.
    pub fn get_separators(&self) -> (count: usize)
        requires
            self.wf(),
        ensures
            count == self@.dom().len(),
    {
        proof {
            lemma_sep_map_len(self.separators@);
        }
        self.separators.len()
    }
}

/// Law: the registry a pair sequence describes is determined by which
/// symbols occur, not by where: its domain is exactly the set of first
/// characters of the non-empty symbol strings.
pub proof fn lemma_registry_domain(ps: Seq<(Seq<char>, bool)>)
    ensures
        reg_of_pairs(ps).dom().finite(),
        forall|c: char|
            reg_of_pairs(ps).contains_key(c) <==> exists|i: int|
                0 <= i < ps.len() && (#[trigger] ps[i]).0.len() > 0 && ps[i].0[0] == c,
    decreases ps.len(),
{
    if ps.len() > 0 {
        lemma_registry_domain(ps.drop_last());
        let last = ps.last();
        assert forall|c: char| reg_of_pairs(ps).contains_key(c) implies exists|i: int|
            0 <= i < ps.len() && (#[trigger] ps[i]).0.len() > 0 && ps[i].0[0] == c by {
            if last.0.len() > 0 && last.0[0] == c {
                assert(ps[ps.len() - 1].0.len() > 0 && ps[ps.len() - 1].0[0] == c);
            } else {
                assert(reg_of_pairs(ps.drop_last()).contains_key(c));
                let i = choose|i: int|
                    0 <= i < ps.len() - 1 && (#[trigger] ps.drop_last()[i]).0.len() > 0
                        && ps.drop_last()[i].0[0] == c;
                assert(ps[i].0.len() > 0 && ps[i].0[0] == c);
            }
        }
        assert forall|c: char|
            exists|i: int|
                0 <= i < ps.len() && (#[trigger] ps[i]).0.len() > 0 && ps[i].0[0]
                    == c implies reg_of_pairs(ps).contains_key(c) by {
            let i = choose|i: int|
                0 <= i < ps.len() && (#[trigger] ps[i]).0.len() > 0 && ps[i].0[0] == c;
            if i < ps.len() - 1 {
                assert(ps.drop_last()[i].0.len() > 0 && ps.drop_last()[i].0[0] == c);
                assert(reg_of_pairs(ps.drop_last()).contains_key(c));
            }
        }
    }
}

/// Law: registering `N` pairs whose symbols are distinct (and none empty)
/// leaves the registry with exactly `N` entries, in whatever order the pairs
/// come.
pub proof fn lemma_size_after_distinct_inserts(ps: Seq<(Seq<char>, bool)>)
    requires
        forall|i: int| 0 <= i < ps.len() ==> (#[trigger] ps[i]).0.len() > 0,
        forall|i: int, j: int| 0 <= i < j < ps.len() ==> ps[i].0[0] != ps[j].0[0],
    ensures
        reg_of_pairs(ps).dom().finite(),
        reg_of_pairs(ps).dom().len() == ps.len(),
    decreases ps.len(),
{
    lemma_registry_domain(ps);
    if ps.len() > 0 {
        let prefix = ps.drop_last();
        assert(forall|i: int| 0 <= i < prefix.len() ==> (#[trigger] prefix[i]).0.len() > 0);
        assert(forall|i: int, j: int|
            0 <= i < j < prefix.len() ==> prefix[i].0[0] != prefix[j].0[0]);
        lemma_size_after_distinct_inserts(prefix);
        lemma_registry_domain(prefix);
        let c = ps.last().0[0];
        assert(!reg_of_pairs(prefix).contains_key(c)) by {
            if reg_of_pairs(prefix).contains_key(c) {
                let i = choose|i: int|
                    0 <= i < prefix.len() && (#[trigger] prefix[i]).0.len() > 0 && prefix[i].0[0]
                        == c;
                assert(ps[i].0[0] == ps[ps.len() - 1].0[0]);
            }
        }
        assert(reg_of_pairs(ps).dom() =~= reg_of_pairs(prefix).dom().insert(c));
    }
}

/// Law: inserting the same symbol twice is one insertion — the registry is
/// unchanged in size and the later keep flag wins.
pub proof fn lemma_upsert_same_symbol(m: Map<char, bool>, c: char, first_keep: bool, second_keep: bool)
    ensures
        m.insert(c, first_keep).insert(c, second_keep) == m.insert(c, second_keep),
        m.insert(c, first_keep).insert(c, second_keep)[c] == second_keep,
        m.insert(c, first_keep).insert(c, second_keep).dom() == m.insert(c, second_keep).dom(),
{
    assert(m.insert(c, first_keep).insert(c, second_keep) =~= m.insert(c, second_keep));
}

/// Replacing the entry at `i` by one with the same symbol acts on the map as
/// a single insert of the new flag.
proof fn lemma_sep_map_update(s: Seq<Separator>, i: int, v: Separator)
    requires
        unique_symbols(s),
        0 <= i < s.len(),
        s[i].symbol == v.symbol,
    ensures
        unique_symbols(s.update(i, v)),
        sep_map(s.update(i, v)) == sep_map(s).insert(v.symbol, v.keep),
    decreases s.len(),
{
    let t = s.update(i, v);
    if i == s.len() - 1 {
        assert(t.drop_last() =~= s.drop_last());
        assert(t.last() == v);
        assert(sep_map(t) == sep_map(s.drop_last()).insert(v.symbol, v.keep));
        assert(sep_map(s.drop_last()).insert(s.last().symbol, s.last().keep).insert(
            v.symbol,
            v.keep,
        ) =~= sep_map(s.drop_last()).insert(v.symbol, v.keep));
    } else {
        assert(unique_symbols(s.drop_last()));
        assert(s.drop_last()[i] == s[i]);
        lemma_sep_map_update(s.drop_last(), i, v);
        assert(t.drop_last() =~= s.drop_last().update(i, v));
        assert(t.last() == s.last());
        assert(s.last().symbol != v.symbol);
        assert(sep_map(t) == sep_map(s.drop_last()).insert(v.symbol, v.keep).insert(
            s.last().symbol,
            s.last().keep,
        ));
        assert(sep_map(s.drop_last()).insert(v.symbol, v.keep).insert(
            s.last().symbol,
            s.last().keep,
        ) =~= sep_map(s).insert(v.symbol, v.keep));
    }
}

/// Inserts `symbol` into the vector, overwriting the keep flag of an entry
/// that already carries it; the map gains or overwrites exactly that entry.
fn upsert(separators: &mut Vec<Separator>, symbol: char, keep: bool)
    requires
        unique_symbols(old(separators)@),
    ensures
        unique_symbols(final(separators)@),
        sep_map(final(separators)@) == sep_map(old(separators)@).insert(symbol, keep),
{
    let n = separators.len();
    let mut idx: usize = 0;
    while idx < n
        invariant
            idx <= n,
            n == separators@.len(),
            unique_symbols(separators@),
            separators@ == old(separators)@,
            forall|j: int| 0 <= j < idx ==> separators@[j].symbol != symbol,
        decreases n - idx,
    {
        if separators[idx].symbol == symbol {
            proof {
                lemma_sep_map_update(separators@, idx as int, Separator { symbol, keep });
            }
            separators.set(idx, Separator { symbol, keep });
            return;
        }
        idx += 1;
    }
    separators.push(Separator { symbol, keep });
    proof {
        assert(separators@.drop_last() =~= old(separators)@);
        assert(separators@.last() == Separator { symbol, keep });
    }
}

} // verus!

use vstd::pervasive::VecAdditionalExecFns;
