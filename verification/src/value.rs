//! The JSON value model: an exec tree type, its mathematical view, and the
//! read-only projection and indexing operations.

use vstd::prelude::*;

verus! {

broadcast use vstd::seq::axiom_seq_index_decreases, vstd::std_specs::vec::axiom_vec_decreases_to_view;

/// Mathematical model of a JSON value. Numbers keep the numeric token they
/// were written with; an object is the sequence of its entries in insertion
/// order.
pub enum SpecValue {
    Null,
    Bool(bool),
    Num(Seq<char>),
    Str(Seq<char>),
    Array(Seq<SpecValue>),
    Object(Seq<(Seq<char>, SpecValue)>),
}

/// Representation of a JSON value. An array is represented as a Vec of JSON
/// values, an object as a vector of key/value entries with unique keys, and a
/// number as the numeric token that named it.
#[derive(Debug, PartialEq)]
pub enum JsonValue {
    Null,
    Bool(bool),
    Num(String),
    Str(String),
    Array(Vec<JsonValue>),
    Object(Vec<(String, JsonValue)>),
}

/// The elementwise view of a sequence of JSON values.
pub open spec fn seq_view(s: Seq<JsonValue>) -> Seq<SpecValue>
    decreases s,
{
    Seq::new(s.len(), |i: int| if 0 <= i < s.len() {
        s[i]@
    } else {
        SpecValue::Null
    })
}

/// The elementwise view of a sequence of object entries.
pub open spec fn entries_view(s: Seq<(String, JsonValue)>) -> Seq<(Seq<char>, SpecValue)>
    decreases s,
{
    Seq::new(s.len(), |i: int| if 0 <= i < s.len() {
        (s[i].0@, s[i].1@)
    } else {
        (Seq::<char>::empty(), SpecValue::Null)
    })
}

impl View for JsonValue {
    type V = SpecValue;

    open spec fn view(&self) -> SpecValue
        decreases self,
    {
        match self {
            JsonValue::Null => SpecValue::Null,
            JsonValue::Bool(b) => SpecValue::Bool(*b),
            JsonValue::Num(t) => SpecValue::Num(t@),
            JsonValue::Str(s) => SpecValue::Str(s@),
            JsonValue::Array(a) => SpecValue::Array(seq_view(a@)),
            JsonValue::Object(o) => SpecValue::Object(entries_view(o@)),
        }
    }
}

impl Clone for JsonValue {
    /// A deep copy with the same view.
    #[verifier::loop_isolation(false)]
    fn clone(&self) -> (r: Self)
        ensures
            r@ == self@,
        decreases self,
    {
        match self {
            JsonValue::Null => JsonValue::Null,
            JsonValue::Bool(b) => JsonValue::Bool(*b),
            JsonValue::Num(t) => JsonValue::Num(t.clone()),
            JsonValue::Str(s) => JsonValue::Str(s.clone()),
            JsonValue::Array(a) => {
                let mut out: Vec<JsonValue> = Vec::new();
                let n = a.len();
                let mut i: usize = 0;
                while i < n
                    invariant
                        n == a.len(),
                        0 <= i <= n,
                        seq_view(out@) == seq_view(a@).take(i as int),
                    decreases n - i,
                {
                    out.push(a[i].clone());
                    proof {
                        assert(seq_view(out@) =~= seq_view(a@).take(i + 1));
                    }
                    i += 1;
                }
                proof {
                    assert(seq_view(a@).take(n as int) =~= seq_view(a@));
                }
                JsonValue::Array(out)
            },
            JsonValue::Object(es) => {
                let mut out: Vec<(String, JsonValue)> = Vec::new();
                let n = es.len();
                let mut i: usize = 0;
                while i < n
                    invariant
                        n == es.len(),
                        0 <= i <= n,
                        entries_view(out@) == entries_view(es@).take(i as int),
                    decreases n - i,
                {
                    out.push((es[i].0.clone(), es[i].1.clone()));
                    proof {
                        assert(entries_view(out@) =~= entries_view(es@).take(i + 1));
                    }
                    i += 1;
                }
                proof {
                    assert(entries_view(es@).take(n as int) =~= entries_view(es@));
                }
                JsonValue::Object(out)
            },
        }
    }
}

/// Looks a key up in an association sequence; the first matching entry wins.
pub open spec fn assoc_find(es: Seq<(Seq<char>, SpecValue)>, k: Seq<char>) -> Option<SpecValue>
    decreases es.len(),
{
    if es.len() == 0 {
        None
    } else if es[0].0 == k {
        Some(es[0].1)
    } else {
        assoc_find(es.drop_first(), k)
    }
}

/// The first index in `es` whose key is `k`, or `es.len()` when no key
/// matches.
pub open spec fn assoc_index(es: Seq<(Seq<char>, SpecValue)>, k: Seq<char>) -> int
    decreases es.len(),
{
    if es.len() == 0 {
        0
    } else if es[0].0 == k {
        0
    } else {
        1 + assoc_index(es.drop_first(), k)
    }
}

/// Inserting into an association sequence with the last write winning: a
/// present key keeps its place and gets the new value; an absent key appends
/// a new entry.
pub open spec fn assoc_insert(
    es: Seq<(Seq<char>, SpecValue)>,
    k: Seq<char>,
    v: SpecValue,
) -> Seq<(Seq<char>, SpecValue)> {
    let i = assoc_index(es, k);
    if i < es.len() {
        es.update(i, (es[i].0, v))
    } else {
        es.push((k, v))
    }
}

/// `assoc_index` names the first index whose key is `k`.
pub proof fn lemma_assoc_index(es: Seq<(Seq<char>, SpecValue)>, k: Seq<char>)
    ensures
        0 <= assoc_index(es, k) <= es.len(),
        forall|j: int| 0 <= j < assoc_index(es, k) ==> (#[trigger] es[j]).0 != k,
        assoc_index(es, k) < es.len() ==> es[assoc_index(es, k)].0 == k,
    decreases es.len(),
{
    if es.len() != 0 && es[0].0 != k {
        let tail = es.drop_first();
        lemma_assoc_index(tail, k);
        assert forall|j: int| 0 <= j < assoc_index(es, k) implies (#[trigger] es[j]).0 != k by {
            if j > 0 {
                assert(tail[j - 1] == es[j]);
            }
        }
    }
}

/// When everything before `i` misses `k` and `i` hits it or is the end,
/// `assoc_index` is `i`.
pub proof fn lemma_assoc_index_is(es: Seq<(Seq<char>, SpecValue)>, k: Seq<char>, i: int)
    requires
        0 <= i <= es.len(),
        forall|j: int| 0 <= j < i ==> (#[trigger] es[j]).0 != k,
        i < es.len() ==> es[i].0 == k,
    ensures
        assoc_index(es, k) == i,
    decreases i,
{
    if i > 0 {
        let tail = es.drop_first();
        assert(forall|j: int| 0 <= j < i - 1 ==> tail[j] == es[j + 1]);
        lemma_assoc_index_is(tail, k, i - 1);
    }
}

/// `assoc_find` returns the entry at the first index whose key is `k`,
/// and `None` when no key matches.
pub proof fn lemma_assoc_find_at(es: Seq<(Seq<char>, SpecValue)>, k: Seq<char>, i: int)
    requires
        0 <= i <= es.len(),
        forall|j: int| 0 <= j < i ==> es[j].0 != k,
        i < es.len() ==> es[i].0 == k,
    ensures
        assoc_find(es, k) == (if i == es.len() {
            None
        } else {
            Some(es[i].1)
        }),
    decreases i,
{
    if i == 0 {
        if es.len() > 0 && es[0].0 != k {
            assert(i == es.len());  // contradiction with i < es.len() ==> match
        }
    } else {
        assert(es[0].0 != k);
        let tail = es.drop_first();
        assert(forall|j: int| 0 <= j < i - 1 ==> tail[j] == es[j + 1]);
        lemma_assoc_find_at(tail, k, i - 1);
    }
}

/// Viewing a pushed sequence appends the pushed element's view.
pub proof fn lemma_seq_view_push(s: Seq<JsonValue>, v: JsonValue)
    ensures
        seq_view(s.push(v)) == seq_view(s).push(v@),
{
    assert(seq_view(s.push(v)) =~= seq_view(s).push(v@));
}

/// Viewing a pushed entry sequence appends the pushed entry's view.
pub proof fn lemma_entries_view_push(s: Seq<(String, JsonValue)>, k: String, v: JsonValue)
    ensures
        entries_view(s.push((k, v))) == entries_view(s).push((k@, v@)),
{
    assert(entries_view(s.push((k, v))) =~= entries_view(s).push((k@, v@)));
}

/// Viewing an updated entry sequence updates the entry's view.
pub proof fn lemma_entries_view_update(
    s: Seq<(String, JsonValue)>,
    i: int,
    k: String,
    v: JsonValue,
)
    requires
        0 <= i < s.len(),
    ensures
        entries_view(s.update(i, (k, v))) == entries_view(s).update(i, (k@, v@)),
{
    assert(entries_view(s.update(i, (k, v))) =~= entries_view(s).update(i, (k@, v@)));
}

/// Relies on `String::push`: appends exactly the given character.
#[verifier::external_body]
pub(crate) fn push_char(s: &mut String, c: char)
    ensures
        final(s)@ == old(s)@.push(c),
{
    s.push(c);
}

/// Character-by-character string equality, verified against the string views.
pub fn str_eq(a: &str, b: &str) -> (r: bool)
    ensures
        r == (a@ == b@),
{
    let na = a.unicode_len();
    let nb = b.unicode_len();
    if na != nb {
        assert(a@ != b@) by {
            assert(a@.len() != b@.len());
        }
        return false;
    }
    let mut i: usize = 0;
    while i < na
        invariant
            na == a@.len(),
            na == b@.len(),
            0 <= i <= na,
            forall|j: int| 0 <= j < i ==> a@[j] == b@[j],
        decreases na - i,
    {
        if a.get_char(i) != b.get_char(i) {
            return false;
        }
        i += 1;
    }
    proof {
        assert(a@ =~= b@);
    }
    true
}

impl JsonValue {
    /// Looks up a key in an `Object`; `None` both when the value is not an
    /// object and when the key is absent.
    pub fn find<'a>(&'a self, idx: &str) -> (r: Option<&'a JsonValue>)
        ensures
            self@ matches SpecValue::Object(es) ==> (match assoc_find(es, idx@) {
                Some(sv) => r matches Some(v) && v@ == sv,
                None => r is None,
            }),
            !(self@ is Object) ==> r is None,
    {
        match self {
            JsonValue::Object(es) => {
                let ghost esv = entries_view(es@);
                let n = es.len();
                let mut i: usize = 0;
                while i < n
                    invariant
                        n == es.len(),
                        0 <= i <= n,
                        esv == entries_view(es@),
                        esv.len() == n,
                        self@ == SpecValue::Object(esv),
                        forall|j: int| 0 <= j < i ==> esv[j].0 != idx@,
                    decreases n - i,
                {
                    if str_eq(es[i].0.as_str(), idx) {
                        proof {
                            lemma_assoc_find_at(esv, idx@, i as int);
                        }
                        return Some(&es[i].1);
                    }
                    i += 1;
                }
                proof {
                    lemma_assoc_find_at(esv, idx@, n as int);
                }
                None
            },
            _ => None,
        }
    }

    /// The string payload, when this value is a `Str`.
    pub fn into_string(self) -> (r: Option<String>)
        ensures
            match self@ {
                SpecValue::Str(s) => r matches Some(x) && x@ == s,
                _ => r is None,
            },
    {
        match self {
            JsonValue::Str(s) => Some(s),
            _ => None,
        }
    }

    /// The boolean payload, when this value is a `Bool`.
    pub fn get_bool(self) -> (r: Option<bool>)
        ensures
            match self@ {
                SpecValue::Bool(b) => r == Some(b),
                _ => r is None,
            },
    {
        match self {
            JsonValue::Bool(b) => Some(b),
            _ => None,
        }
    }

    /// The numeric token, when this value is a `Num`. The token is the text
    /// the number was written with; callers convert it to whatever numeric
    /// type they need.
    pub fn get_num(self) -> (r: Option<String>)
        ensures
            match self@ {
                SpecValue::Num(t) => r matches Some(x) && x@ == t,
                _ => r is None,
            },
    {
        match self {
            JsonValue::Num(t) => Some(t),
            _ => None,
        }
    }

    /// The element vector, when this value is an `Array`.
    pub fn into_array(self) -> (r: Option<Vec<JsonValue>>)
        ensures
            match self@ {
                SpecValue::Array(a) => r matches Some(v) && seq_view(v@) == a,
                _ => r is None,
            },
    {
        match self {
            JsonValue::Array(v) => Some(v),
            _ => None,
        }
    }

    /// The entry vector, when this value is an `Object`.
    pub fn into_object(self) -> (r: Option<Vec<(String, JsonValue)>>)
        ensures
            match self@ {
                SpecValue::Object(es) => r matches Some(v) && entries_view(v@) == es,
                _ => r is None,
            },
    {
        match self {
            JsonValue::Object(es) => Some(es),
            _ => None,
        }
    }

    /// Indexing an `Array` by position. Indexing any other variant, or out of
    /// range, is a contract violation, not a reportable error; an unverified
    /// caller that breaks the contract aborts.
    pub fn index<'a>(&'a self, i: usize) -> (r: &'a JsonValue)
        requires
            self@ matches SpecValue::Array(a) && i < a.len(),
        ensures
            self@ matches SpecValue::Array(a) && r@ == a[i as int],
    {
        match self {
            JsonValue::Array(v) => &v[i],
            _ => vstd::pervasive::unreached(),
        }
    }

    /// Indexing an `Object` by string key. Indexing any other variant, or by
    /// an absent key, is a contract violation, not a reportable error; an
    /// unverified caller that breaks the contract aborts.
    pub fn index_str<'a>(&'a self, idx: &str) -> (r: &'a JsonValue)
        requires
            self@ matches SpecValue::Object(es) && assoc_find(es, idx@) is Some,
        ensures
            self@ matches SpecValue::Object(es) && Some(r@) == assoc_find(es, idx@),
    {
        match self.find(idx) {
            Some(v) => v,
            None => vstd::pervasive::unreached(),
        }
    }
}

} // verus!
