//! Identity keys: the (type name, id) pair that names one entity.
use vstd::prelude::*;
use vstd::string::StrSliceExecFns;
use vstd::string::StringExecFns;

verus! {

/// The separator of a key's text form, `"<type-name>:<id>"`.
pub open spec fn is_sep(c: char) -> bool {
    c == ':'
}

/// How many separators a text holds.
pub open spec fn count_sep(s: Seq<char>) -> nat
    decreases s.len(),
{
    if s.len() == 0 {
        0
    } else {
        count_sep(s.drop_last()) + if is_sep(s.last()) {
            1nat
        } else {
            0nat
        }
    }
}

/// The index of the first separator of a text, or its length if it has none.
pub open spec fn first_sep(s: Seq<char>) -> nat
    decreases s.len(),
{
    if s.len() == 0 {
        0
    } else if count_sep(s.drop_last()) > 0 {
        first_sep(s.drop_last())
    } else if is_sep(s.last()) {
        (s.len() - 1) as nat
    } else {
        s.len()
    }
}

/// The text form of a key model.
pub open spec fn key_text(k: (Seq<char>, Seq<char>)) -> Seq<char> {
    k.0 + seq![':'] + k.1
}

/// The key model that a text names: it must hold exactly one separator.
pub open spec fn parse_key_text(s: Seq<char>) -> Option<(Seq<char>, Seq<char>)> {
    if count_sep(s) == 1 {
        let p = first_sep(s) as int;
        Some((s.take(p), s.skip(p + 1)))
    } else {
        None
    }
}

proof fn lemma_count_sep_concat(a: Seq<char>, b: Seq<char>)
    ensures
        count_sep(a + b) == count_sep(a) + count_sep(b),
        count_sep(a) == 0 ==> first_sep(a + b) == a.len() + first_sep(b),
        count_sep(a) > 0 ==> first_sep(a + b) == first_sep(a),
    decreases b.len(),
{
    if b.len() == 0 {
        assert(a + b =~= a);
        lemma_first_sep_none(a);
    } else {
        lemma_count_sep_concat(a, b.drop_last());
        assert((a + b).drop_last() =~= a + b.drop_last());
    }
}

proof fn lemma_first_sep_none(a: Seq<char>)
    ensures
        count_sep(a) == 0 ==> first_sep(a) == a.len(),
        count_sep(a) > 0 ==> first_sep(a) < a.len(),
    decreases a.len(),
{
    if a.len() > 0 {
        lemma_first_sep_none(a.drop_last());
    }
}

/// A key whose two parts hold no separator is read back from its text form.
pub proof fn lemma_key_text_round_trip(k: (Seq<char>, Seq<char>))
    requires
        count_sep(k.0) == 0,
        count_sep(k.1) == 0,
    ensures
        parse_key_text(key_text(k)) == Some(k),
{
    let c = seq![':'];
    assert(count_sep(c) == 1) by {
        assert(c.drop_last() =~= Seq::<char>::empty());
    }
    assert(first_sep(c) == 0) by {
        assert(c.drop_last() =~= Seq::<char>::empty());
    }
    lemma_count_sep_concat(k.0, c);
    lemma_count_sep_concat(k.0 + c, k.1);
    lemma_count_sep_concat(k.0, c + k.1);
    lemma_count_sep_concat(c, k.1);
    assert(k.0 + c + k.1 =~= k.0 + (c + k.1));
    let s = key_text(k);
    let p = k.0.len() as int;
    assert(first_sep(s) == p);
    assert(s.take(p) =~= k.0);
    assert(s.skip(p + 1) =~= k.1);
}

/// Identity of one entity: its type name and its id.
#[derive(Debug, Clone, PartialEq, Eq, Hash)]
pub struct Key {
    typename: String,
    id: String,
}

/// A key text that does not hold exactly one separator.
#[derive(Debug, PartialEq, Eq)]
pub enum KeyParseError {
    MalformedKeyText(String),
}

impl View for Key {
    type V = (Seq<char>, Seq<char>);

    closed spec fn view(&self) -> (Seq<char>, Seq<char>) {
        (self.typename@, self.id@)
    }
}

impl Key {
    /// The key of the entity with this type name and id.
    pub fn new(typename: String, id: String) -> (r: Key)
        ensures
            r@ == (typename@, id@),
    {
        Key { typename, id }
    }

    /// The name of the field that carries an entity's id.
    pub fn field_name() -> (r: &'static str)
        ensures
            r@ == seq!['i', 'd'],
    {
        proof {
            reveal_strlit("id");
        }
        "id"
    }

    /// The type name of the entity.
    pub fn typename(&self) -> (r: &str)
        ensures
            r@ == self@.0,
    {
        self.typename.as_str()
    }

    /// The id of the entity.
    pub fn id(&self) -> (r: &str)
        ensures
            r@ == self@.1,
    {
        self.id.as_str()
    }

    /// A copy of this key.
    pub fn duplicate(&self) -> (r: Key)
        ensures
            r@ == self@,
    {
        Key { typename: self.typename.clone(), id: self.id.clone() }
    }

    /// Whether two keys name the same entity.
    pub fn same_as(&self, other: &Key) -> (r: bool)
        ensures
            r == (self@ == other@),
    {
        self.typename == other.typename && self.id == other.id
    }

    /// The text form `"<type-name>:<id>"`.
    pub fn to_text(&self) -> (r: String)
        ensures
            r@ == key_text(self@),
    {
        proof {
            reveal_strlit(":");
        }
        let t = self.typename.clone().concat(":");
        t.concat(self.id.as_str())
    }

    /// Reads a key from its text form, which must hold exactly one separator.
    pub fn from_text(s: &str) -> (r: Result<Key, KeyParseError>)
        ensures
            match r {
                Ok(k) => parse_key_text(s@) == Some(k@),
                Err(KeyParseError::MalformedKeyText(t)) => parse_key_text(s@) is None && t@ == s@,
            },
    {
        let n = s.unicode_len();
        let mut i: usize = 0;
        let mut count: usize = 0;
        let mut pos: usize = 0;
        while i < n
            invariant
                n == s@.len(),
                0 <= i <= n,
                count <= i,
                count == count_sep(s@.take(i as int)),
                pos == first_sep(s@.take(i as int)),
                pos <= i,
            decreases n - i,
        {
            let c = s.get_char(i);
            proof {
                assert(s@.take(i + 1).drop_last() =~= s@.take(i as int));
            }
            if count == 0 {
                if c == ':' {
                    pos = i;
                } else {
                    pos = i + 1;
                }
            }
            if c == ':' {
                count = count + 1;
            }
            i = i + 1;
        }
        proof {
            assert(s@.take(n as int) =~= s@);
        }
        proof {
            lemma_first_sep_none(s@);
        }
        if count != 1 {
            return Err(KeyParseError::MalformedKeyText(String::from_str(s)));
        }
        let typename = String::from_str(s.substring_char(0, pos));
        let id = String::from_str(s.substring_char(pos + 1, n));
        proof {
            assert(typename@ =~= s@.take(pos as int));
            assert(id@ =~= s@.skip(pos + 1));
        }
        Ok(Key { typename, id })
    }
}

} // verus!
