//! The DEX field layout of one class, in the order the runtime lays the fields out.
//!
//! Two consumers need this and neither can guess it: a script that has to know which
//! instance slots hold references before it dereferences them, and a reader that has
//! an index from the runtime and wants the field behind it. Both are answered from
//! the DEX the class actually came from, not from a signature someone typed.
//!
//! The order is the load-bearing part. `class_data_item` stores static fields and then
//! instance fields, each as a chain of `field_idx` deltas, so the sequence below is
//! ascending `field_ids` order within each kind - which is exactly the order the
//! runtime's own field arrays follow. The instance reference mask is defined over that
//! sequence: bit *j* describes the *j*-th instance field.
use super::members::{
    class_data_off, class_fields, class_flags, class_row, class_word, field_views, find_class,
    layout_of, plan_tail, push_plan_tail, read_class_fields, ref_mask, rows_ref_mask, FieldView,
    LayoutView,
};
use super::{class_type, Dex};
use crate::error::Error;
use crate::json::quoted;
use vstd::prelude::*;

pub use super::members::{push_json_string, FieldRow};

verus! {

/// One class's field layout, both kinds kept apart and each in declaration order.
#[derive(Clone, Debug, PartialEq, Eq)]
pub struct FieldPlan {
    pub descriptor: String,
    pub instance: Vec<FieldRow>,
    pub statics: Vec<FieldRow>,
}

/// A field layout, with its texts as characters.
#[verifier::ext_equal]
pub struct PlanView {
    pub descriptor: Seq<char>,
    pub instance: Seq<FieldView>,
    pub statics: Seq<FieldView>,
}

impl View for FieldPlan {
    type V = PlanView;

    open spec fn view(&self) -> PlanView {
        PlanView {
            descriptor: self.descriptor@,
            instance: field_views(self.instance@),
            statics: field_views(self.statics@),
        }
    }
}

/// The record of a plan.
pub open spec fn plan_json(plan: PlanView) -> Seq<char> {
    "{\"schema\":\"rasc.fields-plan/v1\",\"descriptor\":"@ + quoted(plan.descriptor) + plan_tail(
        plan.instance,
        plan.statics,
    )
}

impl FieldPlan {
    /// Bit *j* is set when the *j*-th instance field (ascending `field_index`) has a
    /// reference type (`L...;` or `[...`).
    ///
    /// This is a runtime contract, not a convenience: a collector uses
    /// `(mask >> i) & 1` to decide whether instance slot *i* may be dereferenced as a
    /// pointer, so a mask that is off by one bit makes it read a non-reference slot as
    /// a pointer. Fields from the 65th on are not represented (the mask is one word).
    pub fn instance_ref_mask(&self) -> (mask: u64)
        ensures
            mask == ref_mask(self@.instance, self@.instance.len() as int),
    {
        rows_ref_mask(self.instance.as_slice())
    }

    /// The one-object JSONL record this plan is handed around as.
    ///
    /// `field_index` is in here as well as the position, because a caller that has an
    /// index from the runtime has to be able to find the row it belongs to.
    pub fn render_json(&self) -> (json: String)
        ensures
            json@ == plan_json(self@),
    {
        let mut out = String::new();
        out.push_str("{\"schema\":\"rasc.fields-plan/v1\",\"descriptor\":");
        push_json_string(&mut out, self.descriptor.as_str());
        push_plan_tail(&mut out, self.instance.as_slice(), self.statics.as_slice());
        assert(out@ =~= plan_json(self@));
        out
    }
}

/// The field layout of the class `descriptor` in a DEX file, if it defines the class.
pub open spec fn plan_in(data: Seq<u8>, descriptor: Seq<char>) -> Result<Option<PlanView>, Error> {
    match class_row(data, descriptor) {
        Err(error) => Err(error),
        Ok(None) => Ok(None),
        Ok(Some(index)) => {
            let at = class_data_off(data, index);
            if at == 0 {
                Ok(Some(PlanView { descriptor, instance: Seq::empty(), statics: Seq::empty() }))
            } else {
                match class_fields(data, at, class_type(data, index)) {
                    Err(error) => Err(error),
                    Ok(fields) => Ok(
                        Some(PlanView { descriptor, instance: fields.1, statics: fields.0 }),
                    ),
                }
            }
        },
    }
}

/// The field layout of the class `descriptor` in a DEX file, with what identifies the class there:
/// its row, its type and its flags.
pub open spec fn identified_in(data: Seq<u8>, descriptor: Seq<char>) -> Result<
    Option<LayoutView>,
    Error,
> {
    match plan_in(data, descriptor) {
        Err(error) => Err(error),
        Ok(None) => Ok(None),
        Ok(Some(plan)) => {
            let index = class_row(data, descriptor)->Ok_0->0;
            Ok(
                Some(
                    LayoutView {
                        descriptor,
                        dex_class_def_idx: index as u32,
                        dex_type_idx: class_type(data, index) as u32,
                        access_flags: class_flags(data, index) as u32,
                        instance: plan.instance,
                        statics: plan.statics,
                    },
                ),
            )
        },
    }
}

/// Builds the field plan for `descriptor` with what identifies the class in this DEX, or `None`
/// when this DEX does not define it.
///
/// `descriptor` must already be in DEX form (`Lcom/foo/Bar;`). Rows come from the class's own
/// `class_data`, so a malformed entry - one that points at a `field_ids` row belonging to
/// another class - is an error rather than a row from the wrong class. The methods are not
/// walked.
pub fn identified_plan(data: &[u8], descriptor: &str) -> (plan: Result<
    Option<super::members::FieldPlan>,
    Error,
>)
    ensures
        match plan {
            Ok(Some(found)) => identified_in(data@, descriptor@) == Ok::<Option<LayoutView>, Error>(
                Some(found@),
            ),
            Ok(None) => identified_in(data@, descriptor@) == Ok::<Option<LayoutView>, Error>(None),
            Err(error) => identified_in(data@, descriptor@) == Err::<Option<LayoutView>, Error>(error),
        },
{
    let dex = match Dex::parse(data) {
        Ok(dex) => dex,
        Err(error) => {
            return Err(error);
        },
    };
    let (class_index, class_type_idx) = match find_class(&dex, descriptor) {
        Ok(Some(found)) => found,
        Ok(None) => {
            return Ok(None);
        },
        Err(error) => {
            return Err(error);
        },
    };
    let class_data = class_word(&dex, class_index, 24);
    let mut plan = super::members::FieldPlan {
        descriptor: descriptor.to_owned(),
        dex_class_def_idx: class_index as u32,
        dex_type_idx: class_type_idx as u32,
        access_flags: class_word(&dex, class_index, 4),
        instance: Vec::new(),
        statics: Vec::new(),
    };
    // A class with no fields and no methods has no class_data at all.
    if class_data == 0 {
        assert(plan@.instance =~= Seq::empty() && plan@.statics =~= Seq::empty());
        return Ok(Some(plan));
    }
    match read_class_fields(&dex, class_data as usize, class_type_idx) {
        Ok(fields) => {
            plan.instance = fields.instance;
            plan.statics = fields.statics;
            Ok(Some(plan))
        },
        Err(error) => Err(error),
    }
}

/// Builds the field plan for `descriptor`, or `None` when this DEX does not define it: the layout
/// alone, as [`identified_plan`] reads it.
pub fn field_plan(data: &[u8], descriptor: &str) -> (plan: Result<Option<FieldPlan>, Error>)
    ensures
        match plan {
            Ok(Some(found)) => plan_in(data@, descriptor@) == Ok::<Option<PlanView>, Error>(
                Some(found@),
            ),
            Ok(None) => plan_in(data@, descriptor@) == Ok::<Option<PlanView>, Error>(None),
            Err(error) => plan_in(data@, descriptor@) == Err::<Option<PlanView>, Error>(error),
        },
{
    match identified_plan(data, descriptor) {
        Ok(Some(plan)) => Ok(
            Some(
                FieldPlan {
                    descriptor: plan.descriptor,
                    instance: plan.instance,
                    statics: plan.statics,
                },
            ),
        ),
        Ok(None) => Ok(None),
        Err(error) => Err(error),
    }
}

/// A class whose members can all be read has the same field layout whichever way it is asked
/// for.
pub proof fn law_plan_is_that_of_the_members(
    data: Seq<u8>,
    descriptor: Seq<char>,
    members: super::members::MembersView,
)
    requires
        super::members::members_of(data, descriptor) == Ok::<
            Option<super::members::MembersView>,
            Error,
        >(Some(members)),
    ensures
        plan_in(data, descriptor) == Ok::<Option<PlanView>, Error>(
            Some(
                PlanView {
                    descriptor: members.descriptor,
                    instance: members.instance,
                    statics: members.statics,
                },
            ),
        ),
        identified_in(data, descriptor) == Ok::<Option<LayoutView>, Error>(Some(layout_of(members))),
{
}

} // verus!
