//! The members a class declares, as its class data lists them.
use super::error::DexError;
use super::reader::DexReader;
use crate::dex::{law_uleb_reads_back, uleb_at, written_uleb};
use crate::seqs::{lemma_both_occur, occurs_at};
use vstd::prelude::*;

verus! {

/// One member of a class: its index in the table of its kind, its flags, and where its code is
/// (zero for a member without code).
#[derive(Clone, Copy, Debug, PartialEq, Eq, Structural)]
pub struct EncodedMember {
    pub index: u32,
    pub access_flags: u32,
    pub code: u32,
}

/// Which table the members of a list are in.
#[derive(Clone, Copy, Debug, PartialEq, Eq, Structural)]
pub enum MemberKind {
    Field,
    Method,
}

/// The members of a class, as its class data lists them.
#[derive(Debug)]
pub struct ClassData {
    pub static_fields: Vec<EncodedMember>,
    pub instance_fields: Vec<EncodedMember>,
    pub direct_methods: Vec<EncodedMember>,
    pub virtual_methods: Vec<EncodedMember>,
}

/// The members of a class, as sequences.
#[verifier::ext_equal]
pub struct DataView {
    pub static_fields: Seq<EncodedMember>,
    pub instance_fields: Seq<EncodedMember>,
    pub direct_methods: Seq<EncodedMember>,
    pub virtual_methods: Seq<EncodedMember>,
}

impl View for ClassData {
    type V = DataView;

    open spec fn view(&self) -> DataView {
        DataView {
            static_fields: self.static_fields@,
            instance_fields: self.instance_fields@,
            direct_methods: self.direct_methods@,
            virtual_methods: self.virtual_methods@,
        }
    }
}

/// The error for a member that is not in the table of its kind.
pub open spec fn missing_member(kind: MemberKind) -> DexError {
    match kind {
        MemberKind::Field => DexError::InvalidFieldIdx,
        MemberKind::Method => DexError::InvalidMethodIdx,
    }
}

/// The member at `at` and where it ends, behind the member with the index `previous`, in a table
/// of `limit` rows.
pub open spec fn member_at(
    data: Seq<u8>,
    at: int,
    kind: MemberKind,
    previous: int,
    limit: int,
) -> Result<(EncodedMember, int), DexError> {
    match uleb_at(data, at) {
        None => Err(DexError::InvalidUleb128),
        Some(step) => if previous + step.0 >= limit || previous + step.0 > u32::MAX {
            Err(missing_member(kind))
        } else {
            match uleb_at(data, step.1) {
                None => Err(DexError::InvalidUleb128),
                Some(flags) => if kind is Field {
                    Ok(
                        (
                            EncodedMember {
                                index: (previous + step.0) as u32,
                                access_flags: flags.0 as u32,
                                code: 0,
                            },
                            flags.1,
                        ),
                    )
                } else {
                    match uleb_at(data, flags.1) {
                        None => Err(DexError::InvalidUleb128),
                        Some(code) => Ok(
                            (
                                EncodedMember {
                                    index: (previous + step.0) as u32,
                                    access_flags: flags.0 as u32,
                                    code: code.0 as u32,
                                },
                                code.1,
                            ),
                        ),
                    }
                },
            }
        },
    }
}

/// The next `count` members from `at` on and where they end.
pub open spec fn members_at(
    data: Seq<u8>,
    at: int,
    count: int,
    kind: MemberKind,
    previous: int,
    limit: int,
) -> Result<(Seq<EncodedMember>, int), DexError>
    decreases count,
{
    if count <= 0 {
        Ok((Seq::empty(), at))
    } else {
        match member_at(data, at, kind, previous, limit) {
            Err(error) => Err(error),
            Ok(first) => match members_at(
                data,
                first.1,
                count - 1,
                kind,
                first.0.index as int,
                limit,
            ) {
                Err(error) => Err(error),
                Ok(rest) => Ok((seq![first.0] + rest.0, rest.1)),
            },
        }
    }
}

/// The four counts at `at` and where they end.
pub open spec fn counts_at(data: Seq<u8>, at: int) -> Option<(int, int, int, int, int)> {
    match uleb_at(data, at) {
        None => None,
        Some(first) => match uleb_at(data, first.1) {
            None => None,
            Some(second) => match uleb_at(data, second.1) {
                None => None,
                Some(third) => match uleb_at(data, third.1) {
                    None => None,
                    Some(fourth) => Some((first.0, second.0, third.0, fourth.0, fourth.1)),
                },
            },
        },
    }
}

/// The class data at `at`, in a file of `fields` fields and `methods` methods.
pub open spec fn class_data_at(data: Seq<u8>, at: int, fields: int, methods: int) -> Result<
    DataView,
    DexError,
> {
    match counts_at(data, at) {
        None => Err(DexError::InvalidUleb128),
        Some(counts) => match members_at(
            data,
            counts.4,
            counts.0,
            MemberKind::Field,
            0,
            fields,
        ) {
            Err(error) => Err(error),
            Ok(statics) => match members_at(
                data,
                statics.1,
                counts.1,
                MemberKind::Field,
                0,
                fields,
            ) {
                Err(error) => Err(error),
                Ok(instances) => match members_at(
                    data,
                    instances.1,
                    counts.2,
                    MemberKind::Method,
                    0,
                    methods,
                ) {
                    Err(error) => Err(error),
                    Ok(directs) => match members_at(
                        data,
                        directs.1,
                        counts.3,
                        MemberKind::Method,
                        0,
                        methods,
                    ) {
                        Err(error) => Err(error),
                        Ok(virtuals) => Ok(
                            DataView {
                                static_fields: statics.0,
                                instance_fields: instances.0,
                                direct_methods: directs.0,
                                virtual_methods: virtuals.0,
                            },
                        ),
                    },
                },
            },
        },
    }
}

/// Reads the member at `at`.
fn read_member(
    dex_reader: &DexReader,
    at: usize,
    kind: MemberKind,
    previous: u32,
    limit: usize,
) -> (member: Result<(EncodedMember, usize), DexError>)
    ensures
        match member {
            Ok(found) => member_at(
                dex_reader.bytes@,
                at as int,
                kind,
                previous as int,
                limit as int,
            ) == Ok::<(EncodedMember, int), DexError>((found.0, found.1 as int)),
            Err(error) => member_at(
                dex_reader.bytes@,
                at as int,
                kind,
                previous as int,
                limit as int,
            ) == Err::<(EncodedMember, int), DexError>(error),
        },
{
    let step = match dex_reader.uleb(at) {
        Ok(step) => step,
        Err(error) => {
            return Err(error);
        },
    };
    let index: u64 = previous as u64 + step.0 as u64;
    if index >= limit as u64 || index > u32::MAX as u64 {
        return Err(
            match kind {
                MemberKind::Field => DexError::InvalidFieldIdx,
                MemberKind::Method => DexError::InvalidMethodIdx,
            },
        );
    }
    let flags = match dex_reader.uleb(step.1) {
        Ok(flags) => flags,
        Err(error) => {
            return Err(error);
        },
    };
    match kind {
        MemberKind::Field => Ok(
            (EncodedMember { index: index as u32, access_flags: flags.0, code: 0 }, flags.1),
        ),
        MemberKind::Method => match dex_reader.uleb(flags.1) {
            Ok(code) => Ok(
                (EncodedMember { index: index as u32, access_flags: flags.0, code: code.0 }, code.1),
            ),
            Err(error) => Err(error),
        },
    }
}

/// Reads the next `count` members from `at` on.
fn read_members(
    dex_reader: &DexReader,
    at: usize,
    count: u32,
    kind: MemberKind,
    limit: usize,
) -> (members: Result<(Vec<EncodedMember>, usize), DexError>)
    ensures
        match members {
            Ok(found) => members_at(
                dex_reader.bytes@,
                at as int,
                count as int,
                kind,
                0,
                limit as int,
            ) == Ok::<(Seq<EncodedMember>, int), DexError>((found.0@, found.1 as int)),
            Err(error) => members_at(
                dex_reader.bytes@,
                at as int,
                count as int,
                kind,
                0,
                limit as int,
            ) == Err::<(Seq<EncodedMember>, int), DexError>(error),
        },
{
    let ghost data = dex_reader.bytes@;
    let ghost all = members_at(data, at as int, count as int, kind, 0, limit as int);
    let mut list: Vec<EncodedMember> = Vec::new();
    let mut cursor: usize = at;
    let mut previous: u32 = 0;
    let mut k: u32 = 0;
    while k < count
        invariant
            data == dex_reader.bytes@,
            all == members_at(data, at as int, count as int, kind, 0, limit as int),
            k <= count,
            match members_at(
                data,
                cursor as int,
                count - k,
                kind,
                previous as int,
                limit as int,
            ) {
                Ok(rest) => all == Ok::<(Seq<EncodedMember>, int), DexError>(
                    (list@ + rest.0, rest.1),
                ),
                Err(error) => all == Err::<(Seq<EncodedMember>, int), DexError>(error),
            },
        decreases count - k,
    {
        match read_member(dex_reader, cursor, kind, previous, limit) {
            Ok(found) => {
                let ghost before = list@;
                list.push(found.0);
                proof {
                    let rest = members_at(
                        data,
                        found.1 as int,
                        count - k - 1,
                        kind,
                        found.0.index as int,
                        limit as int,
                    );
                    if rest is Ok {
                        assert(before + (seq![found.0] + rest->Ok_0.0) =~= list@ + rest->Ok_0.0);
                    }
                }
                previous = found.0.index;
                cursor = found.1;
            },
            Err(error) => {
                return Err(error);
            },
        }
        k = k + 1;
    }
    assert(list@ + Seq::<EncodedMember>::empty() =~= list@);
    Ok((list, cursor))
}

/// The outcome of a call that returns class data, with the data as a view.
pub open spec fn data_outcome(result: Result<ClassData, DexError>) -> Result<DataView, DexError> {
    match result {
        Ok(data) => Ok(data@),
        Err(error) => Err(error),
    }
}

/// Reads the class data at `offset`, in a file of `fields` fields and `methods` methods.
pub fn read_class_data(dex_reader: &DexReader, offset: u32, fields: usize, methods: usize) -> (data:
    Result<ClassData, DexError>)
    ensures
        data_outcome(data) == class_data_at(
            dex_reader.bytes@,
            offset as int,
            fields as int,
            methods as int,
        ),
{
    let statics = match dex_reader.uleb(offset as usize) {
        Ok(count) => count,
        Err(error) => {
            return Err(error);
        },
    };
    let instances = match dex_reader.uleb(statics.1) {
        Ok(count) => count,
        Err(error) => {
            return Err(error);
        },
    };
    let directs = match dex_reader.uleb(instances.1) {
        Ok(count) => count,
        Err(error) => {
            return Err(error);
        },
    };
    let virtuals = match dex_reader.uleb(directs.1) {
        Ok(count) => count,
        Err(error) => {
            return Err(error);
        },
    };
    let static_fields = match read_members(
        dex_reader,
        virtuals.1,
        statics.0,
        MemberKind::Field,
        fields,
    ) {
        Ok(list) => list,
        Err(error) => {
            return Err(error);
        },
    };
    let instance_fields = match read_members(
        dex_reader,
        static_fields.1,
        instances.0,
        MemberKind::Field,
        fields,
    ) {
        Ok(list) => list,
        Err(error) => {
            return Err(error);
        },
    };
    let direct_methods = match read_members(
        dex_reader,
        instance_fields.1,
        directs.0,
        MemberKind::Method,
        methods,
    ) {
        Ok(list) => list,
        Err(error) => {
            return Err(error);
        },
    };
    let virtual_methods = match read_members(
        dex_reader,
        direct_methods.1,
        virtuals.0,
        MemberKind::Method,
        methods,
    ) {
        Ok(list) => list,
        Err(error) => {
            return Err(error);
        },
    };
    Ok(
        ClassData {
            static_fields: static_fields.0,
            instance_fields: instance_fields.0,
            direct_methods: direct_methods.0,
            virtual_methods: virtual_methods.0,
        },
    )
}

/// A member that was written reads back: how far its index is from the one before it, its flags,
/// and for a method where its code is. Its index has to be in the table of its kind.
pub proof fn law_member_reads_back(
    data: Seq<u8>,
    at: int,
    kind: MemberKind,
    previous: u32,
    limit: int,
    step: u32,
    flags: u32,
    code: u32,
)
    requires
        0 <= at,
        limit <= u32::MAX,
        kind is Field ==> code == 0 && occurs_at(
            data,
            written_uleb(step as nat) + written_uleb(flags as nat),
            at,
        ),
        kind is Method ==> occurs_at(
            data,
            written_uleb(step as nat) + (written_uleb(flags as nat) + written_uleb(code as nat)),
            at,
        ),
    ensures
        previous + step >= limit ==> member_at(data, at, kind, previous as int, limit) is Err,
        previous + step < limit ==> member_at(data, at, kind, previous as int, limit) == Ok::<
            (EncodedMember, int),
            DexError,
        >(
            (
                EncodedMember {
                    index: (previous + step) as u32,
                    access_flags: flags,
                    code,
                },
                at + written_uleb(step as nat).len() + written_uleb(flags as nat).len() + (
                if kind is Method {
                    written_uleb(code as nat).len()
                } else {
                    0
                }),
            ),
        ),
{
    let first = written_uleb(step as nat);
    let second = written_uleb(flags as nat);
    let third = written_uleb(code as nat);
    if kind is Method {
        lemma_both_occur(data, first, second + third, at);
        lemma_both_occur(data, second, third, at + first.len());
        law_uleb_reads_back(data, at + first.len() + second.len(), code);
    } else {
        lemma_both_occur(data, first, second, at);
    }
    law_uleb_reads_back(data, at, step);
    law_uleb_reads_back(data, at + first.len(), flags);
}

} // verus!
