//! The search query model shared by the command line and the scanners.
use crate::error::Error;
use crate::text::{chars_of, replace_char, replaced, string_of};
use vstd::prelude::*;

verus! {

/// What a `findrefs` invocation looks for.
#[derive(Clone, Debug)]
pub enum Query {
    String(String),
    Type(String),
    Method(MemberQuery),
    Field(MemberQuery),
}

/// A member query: at least one of a member name or a class constraint.
#[derive(Clone, Debug)]
pub struct MemberQuery {
    pub name: Option<String>,
    pub class: Option<ClassQuery>,
}

/// How a member query constrains the defining class.
#[derive(Clone, Debug)]
pub enum ClassQuery {
    /// A full `Lpkg/Name;` descriptor.
    Exact(String),
    /// A literal substring of the descriptor, in `pkg/Name` form.
    Fuzzy(String),
}

/// A query, with its texts as characters.
pub enum QueryView {
    String(Seq<char>),
    Type(Seq<char>),
    Method(MemberQueryView),
    Field(MemberQueryView),
}

/// A member query, with its texts as characters.
#[verifier::ext_equal]
pub struct MemberQueryView {
    pub name: Option<Seq<char>>,
    pub class: Option<ClassQueryView>,
}

/// A class constraint, with its text as characters.
pub enum ClassQueryView {
    Exact(Seq<char>),
    Fuzzy(Seq<char>),
}

impl View for ClassQuery {
    type V = ClassQueryView;

    open spec fn view(&self) -> ClassQueryView {
        match self {
            ClassQuery::Exact(name) => ClassQueryView::Exact(name@),
            ClassQuery::Fuzzy(pattern) => ClassQueryView::Fuzzy(pattern@),
        }
    }
}

impl View for MemberQuery {
    type V = MemberQueryView;

    open spec fn view(&self) -> MemberQueryView {
        MemberQueryView {
            name: match self.name {
                Some(name) => Some(name@),
                None => None,
            },
            class: match self.class {
                Some(class) => Some(class@),
                None => None,
            },
        }
    }
}

impl View for Query {
    type V = QueryView;

    open spec fn view(&self) -> QueryView {
        match self {
            Query::String(value) => QueryView::String(value@),
            Query::Type(value) => QueryView::Type(value@),
            Query::Method(query) => QueryView::Method(query@),
            Query::Field(query) => QueryView::Field(query@),
        }
    }
}

/// The `Lpkg/Name;` form of a class name that is not empty.
pub open spec fn class_descriptor(name: Seq<char>) -> Seq<char> {
    if name[0] == 'L' && name.last() == ';' && name.contains('/') {
        name
    } else {
        let slashed = replaced(name, '.', '/');
        let front = if slashed[0] == 'L' {
            slashed
        } else {
            seq!['L'] + slashed
        };
        if front.last() == ';' {
            front
        } else {
            front.push(';')
        }
    }
}

/// Normalizes a class name to the `Lpkg/Name;` descriptor form that `findrefs`
/// and `getclass` compare against the DEX tables.
///
/// Accepts dotted Java names, descriptors with or without their `L`/`;`
/// delimiters, and rejects the empty name.
pub fn format_class_name(name: &str) -> (descriptor: Result<String, Error>)
    ensures
        name@.len() == 0 ==> descriptor == Err::<String, Error>(Error::EmptyClassName),
        name@.len() > 0 ==> (descriptor matches Ok(text) && text@ == class_descriptor(name@)),
{
    let chars = chars_of(name);
    let len: usize = chars.len();
    if len == 0 {
        return Err(Error::EmptyClassName);
    }
    let mut slash = false;
    for i in 0..len
        invariant
            len == chars@.len(),
            slash == chars@.take(i as int).contains('/'),
    {
        let ghost before = chars@.take(i as int);
        assert(chars@.take(i + 1) =~= before.push(chars@[i as int]));
        if chars[i] == '/' {
            slash = true;
            assert(chars@.take(i + 1)[i as int] == '/');
        }
        assert(forall|j: int| 0 <= j < i ==> chars@.take(i + 1)[j] == before[j]);
    }
    assert(chars@.take(len as int) =~= chars@);
    // A name that already looks like a descriptor is used as written, but only when
    // its slashes are there too: `Lcom.foo.Main;` still needs its dots normalised.
    if chars[0] == 'L' && chars[len - 1] == ';' && slash {
        return Ok(name.to_owned());
    }
    let slashed = replace_char(chars.as_slice(), '.', '/');
    let mut text = String::new();
    if slashed[0] != 'L' {
        text.push('L');
    }
    text.push_str(string_of(slashed.as_slice()).as_str());
    proof {
        let front = if slashed@[0] == 'L' {
            slashed@
        } else {
            seq!['L'] + slashed@
        };
        assert(text@ =~= front);
    }
    if slashed[len - 1] != ';' {
        text.push(';');
    }
    Ok(text)
}

/// Normalizes a fuzzy class pattern by treating dots as package separators.
///
/// Matching is literal, so a pattern that mixes dots and slashes has its dots replaced too.
pub fn fuzzy_class_pattern(pattern: &str) -> (text: String)
    ensures
        text@ == replaced(pattern@, '.', '/'),
{
    let chars = chars_of(pattern);
    string_of(replace_char(chars.as_slice(), '.', '/').as_slice())
}

impl Query {
    /// Whether a query names one member class by its full descriptor.
    pub open spec fn names_class(&self) -> bool {
        match self {
            Query::Method(query) | Query::Field(query) => query.class matches Some(
                ClassQuery::Exact(_),
            ),
            Query::String(_) | Query::Type(_) => false,
        }
    }

    /// Whether the query names one member class by its full descriptor.
    ///
    /// This is what makes a query selective on a per-entry basis: every member it can
    /// match belongs to that one class, and a DEX that does not carry the descriptor
    /// cannot produce a row at all. The other query shapes have no such bound, so they are
    /// scanned in full.
    pub fn names_one_class(&self) -> (one: bool)
        ensures
            one == self.names_class(),
    {
        match self {
            Query::Method(query) | Query::Field(query) => match &query.class {
                Some(ClassQuery::Exact(_)) => true,
                _ => false,
            },
            Query::String(_) | Query::Type(_) => false,
        }
    }
}

/// A normalized name is a descriptor: it starts with `L`, ends with `;`, and normalizing it
/// once more changes nothing.
pub proof fn law_normalizing_is_idempotent(name: Seq<char>)
    requires
        name.len() > 0,
    ensures
        class_descriptor(name).len() > 0,
        class_descriptor(name)[0] == 'L',
        class_descriptor(name).last() == ';',
        class_descriptor(class_descriptor(name)) == class_descriptor(name),
{
    let once = class_descriptor(name);
    let slashed = replaced(name, '.', '/');
    if !(name[0] == 'L' && name.last() == ';' && name.contains('/')) {
        assert(slashed.len() == name.len());
        assert forall|i: int| 0 <= i < once.len() implies #[trigger] once[i] != '.' by {}
        assert(replaced(once, '.', '/') =~= once);
    }
}

/// Dots never survive normalizing a pattern, and a pattern without dots is left as it is.
pub proof fn law_pattern_has_no_dots(pattern: Seq<char>)
    ensures
        !replaced(pattern, '.', '/').contains('.'),
        !pattern.contains('.') ==> replaced(pattern, '.', '/') == pattern,
{
    if !pattern.contains('.') {
        assert forall|i: int| 0 <= i < pattern.len() implies replaced(pattern, '.', '/')[i]
            == #[trigger] pattern[i] by {
            assert(pattern.contains(pattern[i]));
        }
        assert(replaced(pattern, '.', '/') =~= pattern);
    }
}

/// A dotted name is found in the tables as `L`, the name with a slash for every dot, and `;`. A
/// name that is a descriptor already is looked for as it is.
pub proof fn law_names_become_descriptors(name: Seq<char>)
    requires
        name.len() > 0,
    ensures
        ({
            let wrapped = seq!['L'] + name + seq![';'];
            name[0] != 'L' && name.last() != ';' ==> {
                &&& class_descriptor(name).len() == wrapped.len()
                &&& forall|i: int|
                    0 <= i < wrapped.len() ==> #[trigger] class_descriptor(name)[i] == (if wrapped[i]
                        == '.' {
                        '/'
                    } else {
                        wrapped[i]
                    })
            }
        }),
        name[0] == 'L' && name.last() == ';' && (name.contains('/') || !name.contains('.'))
            ==> class_descriptor(name) == name,
{
    if name[0] == 'L' && name.last() == ';' && !name.contains('/') && !name.contains('.') {
        law_pattern_has_no_dots(name);
    }
}

/// A query names one class exactly where it is about members and has the descriptor of their class,
/// methods and fields alike.
pub proof fn law_exact_member_queries_name_a_class(query: MemberQuery, text: String)
    ensures
        Query::Method(query).names_class() <==> (query@.class matches Some(ClassQueryView::Exact(_))),
        Query::Method(query).names_class() == Query::Field(query).names_class(),
        !Query::String(text).names_class(),
        !Query::Type(text).names_class(),
{
}

} // verus!
