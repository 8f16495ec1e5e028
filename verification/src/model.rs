//! The ledger state machine: entries, the draft, the id counter and the rate,
//! together with the messages that drive them and the transition function.

use vstd::prelude::*;
use crate::amount::{parse_micro, MAX_AMOUNT_MICRO, parse_amount, lemma_amount_bound};

verus! {

/// Default exchange rate (5.35 left-currency units per right-currency unit),
/// in micro-units.
pub const DEFAULT_RATE_MICRO: i64 = 5_350_000;

/// Which of the two currency columns an entry's raw amount belongs to.
#[derive(Clone, Copy, PartialEq, Eq, Structural, Debug)]
pub enum Column {
    Left,
    Right,
}

/// One ledger line: an amount as free text, its column, a unique id and an
/// editing flag for the UI.
#[derive(Clone, PartialEq, Debug)]
pub struct Entry {
    pub description: String,
    pub column: Column,
    pub editing: bool,
    pub id: usize,
}

/// Mathematical model of an entry.
#[verifier::ext_equal]
pub struct EntryModel {
    pub description: Seq<char>,
    pub column: Column,
    pub editing: bool,
    pub id: int,
}

impl View for Entry {
    type V = EntryModel;

    open spec fn view(&self) -> EntryModel {
        EntryModel {
            description: self.description@,
            column: self.column,
            editing: self.editing,
            id: self.id as int,
        }
    }
}

impl Entry {
    pub fn new(description: &str, col: Column, id: usize) -> (e: Entry)
        ensures
            e@ == (EntryModel {
                description: description@,
                column: col,
                editing: false,
                id: id as int,
            }),
    {
        let e = Entry { description: description.to_owned(), column: col, editing: false, id };
        proof {
            assert(e@ =~= EntryModel {
                description: description@,
                column: col,
                editing: false,
                id: id as int,
            });
        }
        e
    }
}

/// A message from the user: submit the draft, edit the draft, edit an entry,
/// change the rate, or do nothing.
pub enum Msg {
    Add,
    Update(String, Column),
    UpdateEntry(usize, Column, String),
    UpdateRate(String),
    NoOp,
}

/// The whole widget state: the entries in display order, the draft text and
/// its target column, the id counter, and the exchange rate in micro-units.
pub struct Model {
    pub entries: Vec<Entry>,
    pub value: String,
    pub column: Column,
    pub uid: usize,
    pub l2r_rate: i64,
}

/// Mathematical model of the state.
#[verifier::ext_equal]
pub struct ModelView {
    pub entries: Seq<EntryModel>,
    pub value: Seq<char>,
    pub column: Column,
    pub uid: int,
    pub l2r_rate: int,
}

impl View for Model {
    type V = ModelView;

    open spec fn view(&self) -> ModelView {
        ModelView {
            entries: Seq::new(self.entries@.len(), |i: int| self.entries@[i]@),
            value: self.value@,
            column: self.column,
            uid: self.uid as int,
            l2r_rate: self.l2r_rate as int,
        }
    }
}

impl ModelView {
    /// State invariant: entry ids grow strictly in display order (so they are
    /// unique), every id is below the counter, and the rate lies in the range
    /// a rate text can parse to.
    pub open spec fn wf(self) -> bool {
        &&& forall|i: int| 0 <= i < self.entries.len() ==> #[trigger] self.entries[i].id < self.uid
        &&& forall|i: int, j: int|
            0 <= i < j < self.entries.len() ==> #[trigger] self.entries[i].id
                < #[trigger] self.entries[j].id
        &&& 0 <= self.uid
        &&& -(MAX_AMOUNT_MICRO as int) <= self.l2r_rate <= MAX_AMOUNT_MICRO as int
    }
}

/// The rate a rate text sets: its parsed value, or the default when it does
/// not parse.
pub open spec fn rate_micro_of(s: Seq<char>) -> int {
    match parse_micro(s) {
        Some(v) => v,
        None => DEFAULT_RATE_MICRO as int,
    }
}

/// The transition function: the state reached from `m` by one message.
pub open spec fn transition(m: ModelView, msg: Msg) -> ModelView {
    match msg {
        Msg::Add => ModelView {
            entries: m.entries.push(
                EntryModel { description: m.value, column: m.column, editing: false, id: m.uid },
            ),
            value: Seq::<char>::empty(),
            column: m.column,
            uid: m.uid + 1,
            l2r_rate: m.l2r_rate,
        },
        Msg::Update(val, col) => ModelView { value: val@, column: col, ..m },
        Msg::UpdateEntry(id, col, text) => ModelView {
            entries: Seq::new(
                m.entries.len(),
                |i: int|
                    if m.entries[i].id == id as int {
                        EntryModel {
                            description: text@,
                            column: col,
                            editing: m.entries[i].editing,
                            id: m.entries[i].id,
                        }
                    } else {
                        m.entries[i]
                    },
            ),
            ..m
        },
        Msg::UpdateRate(text) => ModelView { l2r_rate: rate_micro_of(text@), ..m },
        Msg::NoOp => m,
    }
}

/// Every message preserves the state invariant.
pub proof fn lemma_transition_preserves_wf(m: ModelView, msg: Msg)
    requires
        m.wf(),
    ensures
        transition(m, msg).wf(),
{
    let t = transition(m, msg);
    match msg {
        Msg::Add => {
            assert forall|i: int, j: int| 0 <= i < j < t.entries.len() implies #[trigger] t.entries[i].id < #[trigger] t.entries[j].id by {
                if j < m.entries.len() {
                    assert(m.entries[i].id < m.entries[j].id);
                } else {
                    assert(m.entries[i].id < m.uid);
                }
            }
        },
        Msg::Update(val, col) => {},
        Msg::UpdateEntry(id, col, text) => {
            assert forall|i: int| 0 <= i < t.entries.len() implies #[trigger] t.entries[i].id < t.uid by {
                assert(t.entries[i].id == m.entries[i].id);
            }
            assert forall|i: int, j: int| 0 <= i < j < t.entries.len() implies #[trigger] t.entries[i].id < #[trigger] t.entries[j].id by {
                assert(t.entries[i].id == m.entries[i].id);
                assert(t.entries[j].id == m.entries[j].id);
            }
        },
        Msg::UpdateRate(text) => {
            lemma_amount_bound(text@);
        },
        Msg::NoOp => {},
    }
}

impl Model {
    /// The state invariant, on the executable state.
    pub open spec fn wf(&self) -> bool {
        self@.wf()
    }

    /// A fresh default state: no entries, empty draft targeting the left
    /// column, counter at zero, default rate.
    pub fn new() -> (m: Model)
        ensures
            m@ == (ModelView {
                entries: Seq::<EntryModel>::empty(),
                value: Seq::<char>::empty(),
                column: Column::Left,
                uid: 0,
                l2r_rate: DEFAULT_RATE_MICRO as int,
            }),
            m.wf(),
    {
        let m = Model {
            entries: Vec::new(),
            value: String::new(),
            column: Column::Left,
            uid: 0,
            l2r_rate: DEFAULT_RATE_MICRO,
        };
        proof {
            assert(m@ =~= ModelView {
                entries: Seq::<EntryModel>::empty(),
                value: Seq::<char>::empty(),
                column: Column::Left,
                uid: 0,
                l2r_rate: DEFAULT_RATE_MICRO as int,
            });
        }
        m
    }

    /// Apply one message: the new state is exactly `transition` of the old.
    pub fn update(&mut self, msg: Msg)
        requires
            old(self).wf(),
            msg is Add ==> old(self).uid < usize::MAX,
        ensures
            final(self)@ == transition(old(self)@, msg),
            final(self).wf(),
    {
        let ghost m0 = self@;
        let ghost tgt = transition(self@, msg);
        proof {
            lemma_transition_preserves_wf(m0, msg);
        }
        match msg {
            Msg::Add => {
                let description = self.value.clone();
                let id = self.uid;
                self.entries.push(Entry { description, column: self.column, editing: false, id });
                self.uid = self.uid + 1;
                self.value = String::new();
                proof {
                    assert(self@.entries =~= m0.entries.push(
                        EntryModel {
                            description: m0.value,
                            column: m0.column,
                            editing: false,
                            id: m0.uid,
                        },
                    ));
                    assert(self@ =~= tgt);
                }
            },
            Msg::Update(val, col) => {
                self.value = val;
                self.column = col;
                proof {
                    assert(self@.entries =~= tgt.entries);
                    assert(self@ =~= tgt);
                }
            },
            Msg::UpdateEntry(id, col, text) => {
                let n = self.entries.len();
                let mut i: usize = 0;
                while i < n
                    invariant
                        0 <= i <= n,
                        n as int == self@.entries.len(),
                        self@.entries.len() == m0.entries.len(),
                        self@.value == m0.value,
                        self@.column == m0.column,
                        self@.uid == m0.uid,
                        self@.l2r_rate == m0.l2r_rate,
                        forall|k: int| i as int <= k < n as int ==> #[trigger] self@.entries[k] == m0.entries[k],
                        forall|k: int|
                            0 <= k < i as int ==> #[trigger] self@.entries[k] == (if m0.entries[k].id == id as int {
                                EntryModel {
                                    description: text@,
                                    column: col,
                                    editing: m0.entries[k].editing,
                                    id: m0.entries[k].id,
                                }
                            } else {
                                m0.entries[k]
                            }),
                    decreases n - i,
                {
                    let ghost pre = self@;
                    let ghost prev = self.entries@;
                    proof {
                        assert(pre.entries[i as int] == m0.entries[i as int]);
                    }
                    if self.entries[i].id == id {
                        let editing = self.entries[i].editing;
                        let eid = self.entries[i].id;
                        self.entries[i] = Entry { description: text.clone(), column: col, editing, id: eid };
                        proof {
                            assert(self@.entries[i as int] =~= EntryModel {
                                description: text@,
                                column: col,
                                editing: m0.entries[i as int].editing,
                                id: m0.entries[i as int].id,
                            });
                            assert forall|k: int| 0 <= k < n as int && k != i as int implies self@.entries[k] == pre.entries[k] by {
                                assert(self.entries@[k] == prev[k]);
                            }
                            assert(m0.entries[i as int].id == id as int);
                            assert(self@.entries[i as int] == (EntryModel {
                                description: text@,
                                column: col,
                                editing: m0.entries[i as int].editing,
                                id: m0.entries[i as int].id,
                            }));
                        }
                    } else {
                        proof {
                            assert(m0.entries[i as int].id != id as int);
                            assert(self@.entries[i as int] == m0.entries[i as int]);
                        }
                    }
                    proof {
                        assert forall|k: int| (i as int) < k < n as int implies #[trigger] self@.entries[k] == m0.entries[k] by {
                            assert(self@.entries[k] == pre.entries[k]);
                            assert(pre.entries[k] == m0.entries[k]);
                        }
                        assert forall|k: int|
                            0 <= k <= i as int implies #[trigger] self@.entries[k] == (if m0.entries[k].id == id as int {
                                EntryModel {
                                    description: text@,
                                    column: col,
                                    editing: m0.entries[k].editing,
                                    id: m0.entries[k].id,
                                }
                            } else {
                                m0.entries[k]
                            }) by {
                            if k < i as int {
                                assert(self@.entries[k] == pre.entries[k]);
                            }
                        }
                    }
                    i += 1;
                }
                proof {
                    assert(self@.entries =~= tgt.entries);
                    assert(self@ =~= tgt);
                }
            },
            Msg::UpdateRate(text) => {
                let parsed = parse_amount(text.as_str());
                self.l2r_rate = match parsed {
                    Some(v) => v,
                    None => DEFAULT_RATE_MICRO,
                };
                proof {
                    assert(self@.entries =~= tgt.entries);
                    assert(self@ =~= tgt);
                }
            },
            Msg::NoOp => {
                proof {
                    assert(self@.entries =~= tgt.entries);
                    assert(self@ =~= tgt);
                }
            },
        }
    }

    /// Rebuild a state from stored parts, validating the invariant. Returns
    /// the state exactly when the parts form a well-formed one.
    #[verifier::loop_isolation(false)]
    pub fn restore(
        entries: Vec<Entry>,
        value: String,
        column: Column,
        uid: usize,
        rate_micro: i64,
    ) -> (r: Option<Model>)
        ensures
            ({
                let v = ModelView {
                    entries: Seq::new(entries@.len(), |i: int| entries@[i]@),
                    value: value@,
                    column: column,
                    uid: uid as int,
                    l2r_rate: rate_micro as int,
                };
                match r {
                    Some(m) => m@ == v && m.wf(),
                    None => !v.wf(),
                }
            }),
    {
        let ghost v = ModelView {
            entries: Seq::new(entries@.len(), |i: int| entries@[i]@),
            value: value@,
            column: column,
            uid: uid as int,
            l2r_rate: rate_micro as int,
        };
        if rate_micro > MAX_AMOUNT_MICRO || rate_micro < -MAX_AMOUNT_MICRO {
            return None;
        }
        let n = entries.len();
        let mut i: usize = 0;
        while i < n
            invariant
                0 <= i <= n,
                n == entries.len(),
                forall|k: int| 0 <= k < i as int ==> #[trigger] v.entries[k].id < uid as int,
                forall|k: int| 0 < k < i as int ==> v.entries[k - 1].id < #[trigger] v.entries[k].id,
            decreases n - i,
        {
            let e_id = entries[i].id;
            if e_id >= uid {
                proof {
                    assert(v.entries[i as int].id == e_id as int);
                    assert(!v.wf());
                }
                return None;
            }
            if i > 0 && entries[i - 1].id >= e_id {
                proof {
                    assert(v.entries[i as int].id == e_id as int);
                    assert(v.entries[i as int - 1].id == entries@[i as int - 1].id as int);
                    assert(!v.wf());
                }
                return None;
            }
            i += 1;
        }
        proof {
            assert forall|a: int, b: int| 0 <= a < b < v.entries.len() implies #[trigger] v.entries[a].id < #[trigger] v.entries[b].id by {
                lemma_adjacent_implies_sorted(v.entries, a, b);
            }
        }
        let m = Model { entries, value, column, uid, l2r_rate: rate_micro };
        proof {
            assert(m@ =~= v);
        }
        Some(m)
    }

    pub fn get_entry_count(&self) -> (n: usize)
        ensures
            n as int == self@.entries.len(),
    {
        self.entries.len()
    }

    pub fn entry_at(&self, i: usize) -> (e: &Entry)
        requires
            (i as int) < self@.entries.len(),
        ensures
            e@ == self@.entries[i as int],
    {
        &self.entries[i]
    }

    /// The draft text a column's input field shows: the pending value for the
    /// pending column, empty text for the other one.
    pub fn draft_for_column(&self, col: Column) -> (v: &str)
        ensures
            v@ == (if col == self@.column {
                self@.value
            } else {
                Seq::<char>::empty()
            }),
    {
        if self.column == col {
            self.value.as_str()
        } else {
            let empty = "";
            proof {
                reveal_strlit("");
                assert(empty@ =~= Seq::<char>::empty());
            }
            empty
        }
    }

    pub fn pending_value(&self) -> (v: &String)
        ensures
            v@ == self@.value,
    {
        &self.value
    }

    pub fn pending_column(&self) -> (c: Column)
        ensures
            c == self@.column,
    {
        self.column
    }

    pub fn next_id(&self) -> (n: usize)
        ensures
            n as int == self@.uid,
    {
        self.uid
    }

    pub fn rate_micro(&self) -> (r: i64)
        ensures
            r as int == self@.l2r_rate,
    {
        self.l2r_rate
    }
}

/// Strictly increasing adjacent ids give strictly increasing ids overall.
proof fn lemma_adjacent_implies_sorted(s: Seq<EntryModel>, i: int, j: int)
    requires
        forall|k: int| 0 < k < s.len() ==> s[k - 1].id < #[trigger] s[k].id,
        0 <= i < j < s.len(),
    ensures
        s[i].id < s[j].id,
    decreases j - i,
{
    if j > i + 1 {
        lemma_adjacent_implies_sorted(s, i, j - 1);
    }
}

} // verus!
