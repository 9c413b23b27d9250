//! Questions asked of a whole DEX file.
use super::classes::{borrowed_views, class_named, method_named, EncodedMethod, MethodView};

use super::error::DexError;
use super::file::{borrowed_texts, file_outcome, methods_for, names_of, DexFile, FileView};
use super::reader::{byte_order, DexReader};
use crate::seqs::{collect, joined, lemma_collect_fails, lemma_joined_has};
use vstd::prelude::*;

verus! {

/// The byte orders of images, by position.
pub open spec fn order_of(images: Seq<Vec<u8>>) -> spec_fn(int) -> Result<bool, DexError> {
    |k: int| byte_order(images[k]@)
}

/// Parse the DEX images of an APK and create a `DexFile` object from them
///
/// Every image has to state its byte order; past that, images cannot be merged into one file.
pub fn parse(images: Vec<Vec<u8>>) -> (file: Result<DexFile, DexError>)
    ensures
        file_outcome(file) == match collect(images@.len() as int, order_of(images@)) {
            Ok(_) => Err::<FileView, DexError>(DexError::MergeUnsupported),
            Err(error) => Err(error),
        },
{
    let ghost f = order_of(images@);
    let ghost all = images@;
    let mut readers: Vec<DexReader> = Vec::new();
    let ghost mut orders: Seq<bool> = Seq::empty();
    for image in it: images
        invariant
            it.seq() == all,
            f == order_of(all),
            collect(it.index(), f) == Ok::<Seq<bool>, DexError>(orders),
    {
        match DexReader::build(image) {
            Ok(reader) => {
                proof {
                    orders = orders.push(reader.big_endian);
                }
                readers.push(reader);
            },
            Err(error) => {
                proof {
                    lemma_collect_fails(all.len() as int, it.index(), f);
                }
                return Err(error);
            },
        }
    }
    DexFile::merge(readers)
}

/// The qualified name of a method.
pub open spec fn qualified(class: Seq<char>, method: MethodView) -> Seq<char> {
    class + "->"@ + method.name
}

/// The qualified names of methods of a class.
pub open spec fn qualified_all(class: Seq<char>, methods: Seq<MethodView>) -> Seq<Seq<char>> {
    methods.map_values(|method: MethodView| qualified(class, method))
}

/// The qualified names of the methods that a class name stands for in a file.
pub open spec fn qualified_in(file: FileView) -> spec_fn(Seq<char>) -> Seq<Seq<char>> {
    |class: Seq<char>| qualified_all(class, methods_for(file, class))
}

/// The qualified names of the methods of a file, class by class.
pub open spec fn qualified_names(file: FileView) -> Seq<Seq<char>> {
    joined(names_of(file.tables, file.classes).map_values(qualified_in(file)))
}

/// The texts of a list of strings.
pub open spec fn string_texts(list: Seq<String>) -> Seq<Seq<char>> {
    list.map_values(|text: String| text@)
}

fn qualified_name(class: &str, method: &EncodedMethod) -> (name: String)
    ensures
        name@ == qualified(class@, method@),
{
    let mut name = class.to_owned();
    name.push_str("->");
    name.push_str(method.get_method_name());
    name
}

/// Return the list of qualified method names from a `DexFile` object
pub fn get_qualified_method_names(dex: &DexFile) -> (names: Vec<String>)
    ensures
        string_texts(names@) == qualified_names(dex@),
{
    let ghost file = dex@;
    let ghost f = qualified_in(file);
    let class_names = dex.get_classes_names();
    let ghost texts = names_of(file.tables, file.classes);
    let mut methods: Vec<String> = Vec::new();
    let mut k: usize = 0;
    assert(string_texts(methods@) =~= Seq::empty());
    assert(texts.take(0).map_values(f) =~= Seq::empty());
    while k < class_names.len()
        invariant
            file == dex@,
            f == qualified_in(file),
            texts == names_of(file.tables, file.classes),
            borrowed_texts(class_names@) == texts,
            k <= class_names@.len(),
            string_texts(methods@) == joined(texts.take(k as int).map_values(f)),
        decreases class_names@.len() - k,
    {
        let class: &str = class_names[k];
        assert(texts[k as int] == class@);
        let own = dex.get_methods_for_class(class);
        let ghost views = methods_for(file, class@);
        let ghost before = string_texts(methods@);
        let ghost wanted = qualified_all(class@, views);
        let mut i: usize = 0;
        assert(wanted.take(0) =~= Seq::empty());
        assert(before + wanted.take(0) =~= before);
        while i < own.len()
            invariant
                borrowed_views(own@) == views,
                wanted == qualified_all(class@, views),
                i <= own@.len(),
                string_texts(methods@) == before + wanted.take(i as int),
            decreases own@.len() - i,
        {
            let method: &EncodedMethod = own[i];
            assert(views[i as int] == method@);
            let name = qualified_name(class, method);
            let ghost listed = methods@;
            methods.push(name);
            proof {
                assert(string_texts(methods@) =~= string_texts(listed).push(name@));
                assert(wanted.take(i + 1) =~= wanted.take(i as int).push(name@));
                assert(string_texts(methods@) =~= before + wanted.take(i + 1));
            }
            i = i + 1;
        }
        proof {
            assert(wanted.take(own@.len() as int) =~= wanted);
            let next = texts.take(k + 1).map_values(f);
            assert(next.drop_last() =~= texts.take(k as int).map_values(f));
            assert(next.last() == f(class@));
        }
        k = k + 1;
    }
    assert(texts.take(class_names@.len() as int) =~= texts);
    methods
}

/// The instructions of the first method with the given name of the first class with the given
/// name, if it has code that was decoded.
pub open spec fn bytecode_of(file: FileView, class_name: Seq<char>, method_name: Seq<char>) -> Option<
    Seq<u16>,
> {
    match class_named(file.tables, file.classes, class_name) {
        None => None,
        Some(class) => match method_named(class, method_name) {
            None => None,
            Some(method) => match method.code_item {
                None => None,
                Some(code) => code.insns,
            },
        },
    }
}

/// Get the list of instructions for the given method
pub fn get_bytecode_for_method(dex: &DexFile, class_name: &String, method_name: &String) -> (units:
    Option<Vec<u16>>)
    ensures
        match units {
            Some(units) => bytecode_of(dex@, class_name@, method_name@) == Some(units@),
            None => bytecode_of(dex@, class_name@, method_name@) is None,
        },
{
    if let Some(class_def) = dex.get_class_def(class_name.as_str()) {
        if let Some(encoded_method) = class_def.get_encoded_method(method_name.as_str()) {
            if let Some(code_item) = &encoded_method.code_item {
                if let Some(insns) = &code_item.insns {
                    let units = vstd::slice::slice_to_vec(insns.as_slice());
                    assert(units@ =~= insns@);
                    return Some(units);
                }
            }
        }
    }
    None
}

/// Every method of every class that a name stands for is among the qualified names, as the name
/// of its class, an arrow and its own name.
pub proof fn law_every_method_is_named(file: FileView, k: int, i: int)
    requires
        0 <= k < names_of(file.tables, file.classes).len(),
        0 <= i < methods_for(file, names_of(file.tables, file.classes)[k]).len(),
    ensures
        ({
            let class = names_of(file.tables, file.classes)[k];
            qualified_names(file).contains(
                class + seq!['-', '>'] + methods_for(file, class)[i].name,
            )
        }),
{
    reveal_strlit("->");
    assert("->"@ =~= seq!['-', '>']);
    let names = names_of(file.tables, file.classes);
    let parts = names.map_values(qualified_in(file));
    assert(parts[k] == qualified_all(names[k], methods_for(file, names[k])));
    lemma_joined_has(parts, k, i);
    assert(parts[k][i] == names[k] + seq!['-', '>'] + methods_for(file, names[k])[i].name);
}

} // verus!
