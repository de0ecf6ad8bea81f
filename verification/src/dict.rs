//! The analysis table: a configuration together with a read-only mapping
//! from canonical board states to exact outcomes. States absent from the
//! mapping count as undetermined.

use vstd::prelude::*;

use crate::board::BoardState;
use crate::outcome::GameAnalysis;
use crate::setting::{GameSetting, SettingView};
use crate::statemap::StateMap;

verus! {

/// Mathematical image of an [`AnalysisDictionary`].
pub struct DictView {
    pub setting: SettingView,
    pub table: Map<Seq<(int, int)>, GameAnalysis>,
}

/// A solved (possibly partial) analysis: the configuration it was computed
/// for, and the outcome of every resolved canonical state.
pub struct AnalysisDictionary {
    setting: GameSetting,
    analysis: StateMap<GameAnalysis>,
}

impl View for AnalysisDictionary {
    type V = DictView;

    closed spec fn view(&self) -> DictView {
        DictView { setting: self.setting@, table: self.analysis@ }
    }
}

impl AnalysisDictionary {
    #[verifier::type_invariant]
    spec fn ti(self) -> bool {
        self.analysis.inv()
    }

    /// Packs a configuration and a solved outcome map into a table.
    pub(crate) fn from_parts(setting: GameSetting, analysis: StateMap<GameAnalysis>) -> (r:
        AnalysisDictionary)
        requires
            analysis.inv(),
        ensures
            r@.setting == setting@,
            r@.table == analysis@,
    {
        AnalysisDictionary { setting, analysis }
    }

    /// An empty table for the given configuration.
    pub fn new(setting: GameSetting) -> (r: AnalysisDictionary)
        ensures
            r@.setting == setting@,
            r@.table == Map::<Seq<(int, int)>, GameAnalysis>::empty(),
    {
        AnalysisDictionary { setting, analysis: StateMap::new() }
    }

    /// The same table with the outcome of one state recorded, replacing
    /// any previous entry for it.
    pub fn with_entry(self, state: &BoardState, outcome: GameAnalysis) -> (r: AnalysisDictionary)
        ensures
            r@.setting == self@.setting,
            r@.table == self@.table.insert(state@, outcome),
    {
        proof {
            use_type_invariant(&self);
        }
        let AnalysisDictionary { setting, mut analysis } = self;
        analysis.set(state, outcome);
        AnalysisDictionary { setting, analysis }
    }

    /// The configuration this table was computed for.
    pub fn setting(&self) -> (r: &GameSetting)
        ensures
            r@ == self@.setting,
    {
        &self.setting
    }

    /// The outcome recorded for a state; a state never resolved is
    /// undetermined.
    pub fn analysis(&self, state: &BoardState) -> (r: GameAnalysis)
        ensures
            r == if self@.table.contains_key(state@) {
                self@.table[state@]
            } else {
                GameAnalysis::Neutral
            },
    {
        proof {
            use_type_invariant(self);
        }
        match self.analysis.get(state) {
            Some(a) => a,
            None => GameAnalysis::Neutral,
        }
    }

    /// All resolved states with their outcomes: every listed pair is in the
    /// table, the listed states are distinct, and every resolved state is
    /// listed.
    pub fn entries(&self) -> (r: Vec<(BoardState, GameAnalysis)>)
        ensures
            forall|i: int| #![trigger r@[i]]
                0 <= i < r@.len() ==> self@.table.contains_key(r@[i].0@) && self@.table[r@[i].0@]
                    == r@[i].1,
            forall|i1: int, i2: int| #![trigger r@[i1], r@[i2]]
                0 <= i1 < i2 < r@.len() ==> r@[i1].0@ != r@[i2].0@,
            forall|kk: Seq<(int, int)>| #![trigger self@.table.contains_key(kk)]
                self@.table.contains_key(kk) ==> exists|i: int| #![trigger r@[i]]
                    0 <= i < r@.len() && r@[i].0@ == kk,
    {
        proof {
            use_type_invariant(self);
        }
        self.analysis.entries()
    }

    /// Union of two tables for the same configuration. On a state resolved
    /// in both, this table's entry wins: merged data never overwrites a
    /// previously resolved result.
    pub fn merge(&self, other: AnalysisDictionary) -> (r: AnalysisDictionary)
        requires
            self@.setting == other@.setting,
        ensures
            r@.setting == self@.setting,
            r@.table == other@.table.union_prefer_right(self@.table),
    {
        proof {
            use_type_invariant(self);
            use_type_invariant(&other);
        }
        let mut m: StateMap<GameAnalysis> = StateMap::new();
        let es = self.analysis.entries();
        let n1 = es.len();
        let mut i: usize = 0;
        while i < n1
            invariant
                i <= n1,
                n1 == es@.len(),
                m.inv(),
                forall|ii: int| #![trigger es@[ii]]
                    0 <= ii < es@.len() ==> self@.table.contains_key(es@[ii].0@)
                        && self@.table[es@[ii].0@] == es@[ii].1,
                forall|kk: Seq<(int, int)>| #![trigger self@.table.contains_key(kk)]
                    self@.table.contains_key(kk) ==> exists|ii: int| #![trigger es@[ii]]
                        0 <= ii < es@.len() && es@[ii].0@ == kk,
                forall|kk: Seq<(int, int)>| #![trigger m@.contains_key(kk)]
                    m@.contains_key(kk) ==> (self@.table.contains_key(kk) && m@[kk]
                        == self@.table[kk]),
                forall|ii: int| #![trigger es@[ii]]
                    0 <= ii < i ==> m@.contains_key(es@[ii].0@),
            decreases n1 - i,
        {
            let key = es[i].0.clone();
            let val = es[i].1;
            m.set(&key, val);
            i += 1;
        }
        proof {
            assert forall|kk: Seq<(int, int)>|
                #![trigger m@.contains_key(kk), self@.table.contains_key(kk)]
                true implies m@.contains_key(kk) == self@.table.contains_key(kk) by {
                if self@.table.contains_key(kk) {
                    let ii = choose|ii: int| #![trigger es@[ii]]
                        0 <= ii < es@.len() && es@[ii].0@ == kk;
                    assert(m@.contains_key(es@[ii].0@));
                }
            }
            assert(m@ =~= self@.table);
        }
        let es2 = other.analysis.entries();
        let n2 = es2.len();
        let mut i2: usize = 0;
        while i2 < n2
            invariant
                i2 <= n2,
                n2 == es2@.len(),
                m.inv(),
                forall|ii: int| #![trigger es2@[ii]]
                    0 <= ii < es2@.len() ==> other@.table.contains_key(es2@[ii].0@)
                        && other@.table[es2@[ii].0@] == es2@[ii].1,
                forall|kk: Seq<(int, int)>| #![trigger other@.table.contains_key(kk)]
                    other@.table.contains_key(kk) ==> exists|ii: int| #![trigger es2@[ii]]
                        0 <= ii < es2@.len() && es2@[ii].0@ == kk,
                forall|kk: Seq<(int, int)>| #![trigger m@.contains_key(kk)]
                    m@.contains_key(kk) ==> (self@.table.contains_key(kk)
                        || other@.table.contains_key(kk)),
                forall|kk: Seq<(int, int)>| #![trigger self@.table.contains_key(kk)]
                    self@.table.contains_key(kk) ==> m@.contains_key(kk) && m@[kk]
                        == self@.table[kk],
                forall|kk: Seq<(int, int)>| #![trigger m@.contains_key(kk)]
                    m@.contains_key(kk) && !self@.table.contains_key(kk)
                        ==> other@.table.contains_key(kk) && m@[kk] == other@.table[kk],
                forall|ii: int| #![trigger es2@[ii]]
                    0 <= ii < i2 ==> m@.contains_key(es2@[ii].0@),
            decreases n2 - i2,
        {
            let key = es2[i2].0.clone();
            let val = es2[i2].1;
            match m.get(&key) {
                Some(_) => {},
                None => {
                    m.set(&key, val);
                },
            }
            i2 += 1;
        }
        proof {
            assert forall|kk: Seq<(int, int)>|
                #![trigger m@.contains_key(kk)]
                true implies m@.contains_key(kk) == (self@.table.contains_key(kk)
                || other@.table.contains_key(kk)) by {
                if other@.table.contains_key(kk) {
                    let ii = choose|ii: int| #![trigger es2@[ii]]
                        0 <= ii < es2@.len() && es2@[ii].0@ == kk;
                    assert(m@.contains_key(es2@[ii].0@));
                }
            }
            assert(m@ =~= other@.table.union_prefer_right(self@.table));
        }
        AnalysisDictionary { setting: self.setting, analysis: m }
    }
}

} // verus!
