//! What a command line asks for.
use crate::error::{Error, Table};
use crate::query::{
    class_descriptor, format_class_name, fuzzy_class_pattern, ClassQuery, ClassQueryView,
    MemberQuery, MemberQueryView, Query, QueryView,
};
use crate::text::replaced;
use vstd::prelude::*;

verus! {

/// The worker count of a machine that does not say how many threads it runs at once.
pub const FALLBACK_THREADS: usize = 8;

/// Default worker count for a command.
///
/// One worker per logical CPU. Every command runs the same shape of work over the
/// archive's DEX entries - inflate one entry, scan or index it - and the entry
/// scheduler has one entry in flight per worker, so the pool size is what decides
/// both how fast that parallel phase runs and how much memory it holds at once
/// (one inflated entry per worker at most).
pub fn default_threads(parallelism: Option<usize>) -> (threads: usize)
    ensures
        threads == (match parallelism {
            Some(count) => count,
            None => FALLBACK_THREADS,
        }),
{
    match parallelism {
        Some(count) => count,
        None => FALLBACK_THREADS,
    }
}

/// A whole command line.
#[derive(Debug)]
pub struct Cli {
    pub command: Command,
}

/// The command of a command line.
#[derive(Debug)]
pub enum Command {
    /// Locate a class in an APK and decompile it.
    Getclass(GetClassArgs),
    /// List the entries an archive holds, in central-directory order.
    Entries(EntriesArgs),
    /// List every string in every root DEX of an archive.
    Strings(StringsArgs),
    /// Find code references across every DEX in an APK.
    Findrefs(FindRefsArgs),
    /// Decode and print AndroidManifest.xml from an APK.
    Manifest(ManifestArgs),
    /// List classes defined across every DEX in an APK.
    Classes(ClassesArgs),
    /// Print one class's DEX field layout as one JSON record.
    FieldsPlan(FieldsPlanArgs),
    /// Resolve a runtime field index to the DEX field behind it.
    FieldByIndex(FieldByIndexArgs),
    /// Resolve a runtime method index to the DEX method behind it.
    MethodByIndex(MethodByIndexArgs),
    /// Install the rasc skill so coding agents know how to use rasc.
    Skill(SkillArgs),
}

#[derive(Debug)]
pub struct SkillArgs {
    /// Install for these agents, by name, or for `all` of them.
    ///
    /// Default: every agent that looks installed on this machine, or the cross-agent
    /// `~/.agents/skills` location when none of them is.
    pub agents: Vec<String>,
    /// Install into this skills directory instead of the agents' own ones.
    pub dir: Option<String>,
    /// Print the skill to stdout instead of writing any file.
    pub print: bool,
}

#[derive(Debug)]
pub struct ClassesArgs {
    pub threads: usize,
    /// Case-insensitive substring filter over Java-style class names.
    pub filter: Option<String>,
    pub output: Option<String>,
    /// Print phase timings on stderr.
    pub debug: bool,
    pub apk_path: String,
}

#[derive(Debug)]
pub struct FieldsPlanArgs {
    /// One or more code inputs - an APK, or bare DEX files - tried in this order.
    pub apk: Vec<String>,
    /// Class to plan: `Lcom/foo/Bar;` or `com.foo.Bar`.
    pub descriptor: String,
    pub output: Option<String>,
    pub threads: usize,
    /// Print phase timings on stderr.
    pub debug: bool,
}

#[derive(Debug)]
pub struct FieldByIndexArgs {
    /// One or more code inputs - an APK, or bare DEX files - tried in this order.
    pub apk: Vec<String>,
    /// Declaring class: `Lcom/foo/Bar;` or `com.foo.Bar`.
    pub descriptor: String,
    /// The index a runtime reports for a field: instance fields first, then statics.
    pub field_index: u32,
    pub output: Option<String>,
    pub threads: usize,
    /// Print phase timings on stderr.
    pub debug: bool,
}

#[derive(Debug)]
pub struct MethodByIndexArgs {
    /// One or more code inputs - an APK, or bare DEX files - tried in this order.
    pub apk: Vec<String>,
    /// Declaring class: `Lcom/foo/Bar;` or `com.foo.Bar`.
    pub descriptor: String,
    /// The index a runtime reports for a method: the `method_ids` index.
    pub method_index: u32,
    pub output: Option<String>,
    pub threads: usize,
    /// Print phase timings on stderr.
    pub debug: bool,
}

#[derive(Debug)]
pub struct StringsArgs {
    /// Only strings containing this text, ignoring case.
    pub filter: Option<String>,
    /// At most this many strings, counted in the order they are printed.
    pub limit: Option<usize>,
    /// Start at this match instead of the first, counted in the order they are printed.
    pub offset: Option<usize>,
    pub threads: usize,
    pub output: Option<String>,
    /// Print phase timings on stderr.
    pub debug: bool,
    pub apk_path: String,
}

#[derive(Debug)]
pub struct EntriesArgs {
    pub output: Option<String>,
    pub apk_path: String,
}

#[derive(Debug)]
pub struct ManifestArgs {
    pub output: Option<String>,
    pub apk_path: String,
}

#[derive(Debug)]
pub struct GetClassArgs {
    /// Print the member table of the class in front of its source.
    pub members: bool,
    pub debug: bool,
    pub threads: usize,
    pub output: Option<String>,
    pub apk_path: String,
    pub dalvik_class: String,
}

#[derive(Debug)]
pub struct FindRefsArgs {
    pub debug: bool,
    pub threads: usize,
    pub apk_path: String,
    pub kind: FindKind,
}

/// What is looked for, as it was typed.
#[derive(Debug)]
pub enum FindKind {
    String(ValueQuery),
    Type(ValueQuery),
    Method(MemberArgs),
    Field(MemberArgs),
}

#[derive(Debug)]
pub struct ValueQuery {
    pub output: Option<String>,
    pub value: String,
}

#[derive(Debug)]
pub struct MemberArgs {
    pub output: Option<String>,
    pub name: Option<String>,
    pub class_name: Option<String>,
    pub fuzzy_class: bool,
}

/// A text that was given and is not empty.
pub open spec fn given(text: Option<String>) -> Option<Seq<char>> {
    match text {
        Some(text) => if text@.len() == 0 {
            None
        } else {
            Some(text@)
        },
        None => None,
    }
}

/// The class constraint that member arguments state.
pub open spec fn class_constraint(args: MemberArgs) -> Option<ClassQueryView> {
    match given(args.class_name) {
        None => None,
        Some(name) => if args.fuzzy_class {
            Some(ClassQueryView::Fuzzy(replaced(name, '.', '/')))
        } else {
            Some(ClassQueryView::Exact(class_descriptor(name)))
        },
    }
}

/// The query that member arguments state about the members of a table.
pub open spec fn member_query_of(args: MemberArgs, table: Table) -> Result<MemberQueryView, Error> {
    if given(args.name) is None && class_constraint(args) is None {
        Err(Error::EmptyMemberQuery { table })
    } else {
        Ok(MemberQueryView { name: given(args.name), class: class_constraint(args) })
    }
}

/// The query that a command line states.
pub open spec fn query_of(kind: FindKind) -> Result<QueryView, Error> {
    match kind {
        FindKind::String(query) => Ok(QueryView::String(query.value@)),
        FindKind::Type(query) => Ok(QueryView::Type(query.value@)),
        FindKind::Method(args) => match member_query_of(args, Table::Methods) {
            Ok(query) => Ok(QueryView::Method(query)),
            Err(error) => Err(error),
        },
        FindKind::Field(args) => match member_query_of(args, Table::Fields) {
            Ok(query) => Ok(QueryView::Field(query)),
            Err(error) => Err(error),
        },
    }
}

/// Where the rows of a search are written, beside standard output.
pub open spec fn output_of(kind: FindKind) -> Option<Seq<char>> {
    let output = match kind {
        FindKind::String(query) => query.output,
        FindKind::Type(query) => query.output,
        FindKind::Method(args) => args.output,
        FindKind::Field(args) => args.output,
    };
    match output {
        Some(path) => Some(path@),
        None => None,
    }
}

/// A text that was given and is not empty.
fn given_text(text: &Option<String>) -> (kept: Option<&str>)
    ensures
        match kept {
            Some(kept) => given(*text) == Some(kept@),
            None => given(*text) is None,
        },
{
    match text {
        Some(text) => {
            let kept = text.as_str();
            if kept.is_empty() {
                None
            } else {
                Some(kept)
            }
        },
        None => None,
    }
}

impl MemberArgs {
    /// The query these arguments state about the members of `table`.
    pub fn member_query(&self, table: Table) -> (query: Result<MemberQuery, Error>)
        ensures
            match query {
                Ok(query) => member_query_of(*self, table) == Ok::<MemberQueryView, Error>(query@),
                Err(error) => member_query_of(*self, table) == Err::<MemberQueryView, Error>(error),
            },
    {
        let name: Option<String> = match given_text(&self.name) {
            Some(name) => Some(name.to_owned()),
            None => None,
        };
        let class: Option<ClassQuery> = match given_text(&self.class_name) {
            None => None,
            Some(class_name) => if self.fuzzy_class {
                Some(ClassQuery::Fuzzy(fuzzy_class_pattern(class_name)))
            } else {
                match format_class_name(class_name) {
                    Ok(descriptor) => Some(ClassQuery::Exact(descriptor)),
                    Err(error) => {
                        return Err(error);
                    },
                }
            },
        };
        if name.is_none() && class.is_none() {
            return Err(Error::EmptyMemberQuery { table });
        }
        Ok(MemberQuery { name, class })
    }
}

impl FindRefsArgs {
    /// The query the command line states.
    pub fn query(&self) -> (query: Result<Query, Error>)
        ensures
            match query {
                Ok(query) => query_of(self.kind) == Ok::<QueryView, Error>(query@),
                Err(error) => query_of(self.kind) == Err::<QueryView, Error>(error),
            },
    {
        match &self.kind {
            FindKind::String(q) => Ok(Query::String(q.value.as_str().to_owned())),
            FindKind::Type(q) => Ok(Query::Type(q.value.as_str().to_owned())),
            FindKind::Method(q) => match q.member_query(Table::Methods) {
                Ok(query) => Ok(Query::Method(query)),
                Err(error) => Err(error),
            },
            FindKind::Field(q) => match q.member_query(Table::Fields) {
                Ok(query) => Ok(Query::Field(query)),
                Err(error) => Err(error),
            },
        }
    }

    /// Where the rows are written, beside standard output.
    pub fn output_path(&self) -> (path: Option<&str>)
        ensures
            match path {
                Some(path) => output_of(self.kind) == Some(path@),
                None => output_of(self.kind) is None,
            },
    {
        let output: &Option<String> = match &self.kind {
            FindKind::String(q) => &q.output,
            FindKind::Type(q) => &q.output,
            FindKind::Method(q) => &q.output,
            FindKind::Field(q) => &q.output,
        };
        match output {
            Some(path) => Some(path.as_str()),
            None => None,
        }
    }
}

/// A member query that a command line states is never empty, and the class it names exactly is a
/// descriptor.
pub proof fn law_stated_query_is_not_empty(args: MemberArgs, table: Table)
    requires
        member_query_of(args, table) is Ok,
    ensures
        member_query_of(args, table)->Ok_0.name is Some || member_query_of(
            args,
            table,
        )->Ok_0.class is Some,
        member_query_of(args, table)->Ok_0.class matches Some(ClassQueryView::Exact(descriptor))
            ==> descriptor.len() > 0 && descriptor[0] == 'L' && descriptor.last() == ';',
{
    if let Some(name) = given(args.class_name) {
        crate::query::law_normalizing_is_idempotent(name);
    }
}

/// A member query asks for the name and the class that were given, and for nothing else; an empty
/// text is as good as none, and one of the two has to be given.
pub proof fn law_a_query_asks_for_what_was_given(args: MemberArgs, table: Table)
    ensures
        member_query_of(args, table) is Err <==> (args.name is None || (args.name->0)@.len() == 0) && (
        args.class_name is None || (args.class_name->0)@.len() == 0),
        member_query_of(args, table) matches Ok(query) ==> {
            &&& query.name == (if args.name is None || (args.name->0)@.len() == 0 {
                None::<Seq<char>>
            } else {
                Some((args.name->0)@)
            })
            &&& query.class is None <==> args.class_name is None || (args.class_name->0)@.len() == 0
            &&& query.class matches Some(ClassQueryView::Fuzzy(pattern)) ==> args.fuzzy_class
                && pattern.len() == (args.class_name->0)@.len() && (forall|i: int|
                0 <= i < pattern.len() ==> #[trigger] pattern[i] == (if (args.class_name->0)@[i] == '.' {
                    '/'
                } else {
                    (args.class_name->0)@[i]
                }))
            &&& query.class matches Some(ClassQueryView::Exact(descriptor)) ==> !args.fuzzy_class
                && descriptor == class_descriptor((args.class_name->0)@)
        },
{
}

/// A search is about the kind of thing that was asked for, and about the text that was given.
pub proof fn law_a_search_is_of_its_kind(kind: FindKind)
    ensures
        query_of(kind) matches Ok(query) ==> {
            &&& kind is String <==> query is String
            &&& kind is Type <==> query is Type
            &&& kind is Method <==> query is Method
            &&& kind is Field <==> query is Field
            &&& kind matches FindKind::String(args) ==> query == QueryView::String(args.value@)
            &&& kind matches FindKind::Type(args) ==> query == QueryView::Type(args.value@)
        },
        kind is String || kind is Type ==> query_of(kind) is Ok,
{
}

} // verus!
