//! The model's output: which of its tensors are the detections and the mask
//! prototypes.
use crate::error::Error;
use crate::text::{decimal, push_decimal};
use vstd::prelude::*;

verus! {

/// A tensor of the output: the handle under which it is kept, and its size in
/// each dimension.
#[derive(Debug)]
pub struct Tensor {
    pub handle: usize,
    pub size: Vec<i64>,
}

/// A value that the model gave: tensors, alone or in collections.
#[derive(Debug)]
pub enum Value {
    Tensor(Tensor),
    TensorList(Vec<Tensor>),
    Tuple(Vec<Value>),
    GenericList(Vec<Value>),
    GenericDict(Vec<(Value, Value)>),
    /// Anything that holds no tensor.
    Other,
}

/// The tensors of a value, in their order.
pub open spec fn tensors_in(value: Value) -> Seq<Tensor>
    decreases value,
{
    match value {
        Value::Tensor(tensor) => seq![tensor],
        Value::TensorList(tensors) => tensors@,
        Value::Tuple(values) => tensors_in_all(values@),
        Value::GenericList(values) => tensors_in_all(values@),
        Value::GenericDict(entries) => tensors_in_entries(entries@),
        Value::Other => Seq::empty(),
    }
}

/// The tensors of a list of values.
pub open spec fn tensors_in_all(values: Seq<Value>) -> Seq<Tensor>
    decreases values,
{
    if values.len() == 0 {
        Seq::empty()
    } else {
        tensors_in_all(values.drop_last()) + tensors_in(values.last())
    }
}

/// The tensors of a list of keys and values.
pub open spec fn tensors_in_entries(entries: Seq<(Value, Value)>) -> Seq<Tensor>
    decreases entries,
{
    if entries.len() == 0 {
        Seq::empty()
    } else {
        tensors_in_entries(entries.drop_last()) + tensors_in(entries.last().0) + tensors_in(
            entries.last().1,
        )
    }
}

/// The tensors behind a list of references.
pub open spec fn referenced(tensors: Seq<&Tensor>) -> Seq<Tensor> {
    Seq::new(tensors.len(), |i: int| *tensors[i])
}

/// Adds the tensors of a value.
pub fn collect_tensors<'a>(value: &'a Value, tensors: &mut Vec<&'a Tensor>)
    ensures
        referenced(final(tensors)@) == referenced(old(tensors)@) + tensors_in(*value),
    decreases value,
{
    match value {
        Value::Tensor(tensor) => {
            tensors.push(tensor);
            proof {
                assert(referenced(tensors@) =~= referenced(old(tensors)@) + seq![*tensor]);
            }
        },
        Value::TensorList(list) => {
            let mut i: usize = 0;
            while i < list.len()
                invariant
                    i <= list@.len(),
                    referenced(tensors@) == referenced(old(tensors)@) + list@.take(i as int),
                decreases list@.len() - i,
            {
                let ghost before: Seq<Tensor> = referenced(tensors@);
                tensors.push(&list[i]);
                proof {
                    assert(referenced(tensors@) =~= before.push(list@[i as int]));
                    assert(list@.take(i + 1) =~= list@.take(i as int).push(list@[i as int]));
                }
                i = i + 1;
            }
            proof {
                assert(list@.take(i as int) =~= list@);
            }
        },
        Value::Tuple(values) => {
            collect_all(values, tensors);
        },
        Value::GenericList(values) => {
            collect_all(values, tensors);
        },
        Value::GenericDict(entries) => {
            let mut i: usize = 0;
            while i < entries.len()
                invariant
                    i <= entries@.len(),
                    value matches Value::GenericDict(held) && held == entries,
                    referenced(tensors@) == referenced(old(tensors)@) + tensors_in_entries(
                        entries@.take(i as int),
                    ),
                decreases entries@.len() - i,
            {
                proof {
                    assert(entries@.take(i + 1).drop_last() =~= entries@.take(i as int));
                    assert(decreases_to!(value => entries@));
                    assert(decreases_to!(entries@ => entries@[i as int]));
                }
                let entry: &(Value, Value) = &entries[i];
                collect_tensors(&entry.0, tensors);
                collect_tensors(&entry.1, tensors);
                i = i + 1;
            }
            proof {
                assert(entries@.take(i as int) =~= entries@);
            }
        },
        Value::Other => {
            proof {
                assert(referenced(tensors@) + tensors_in(*value) =~= referenced(tensors@));
            }
        },
    }
}

fn collect_all<'a>(values: &'a Vec<Value>, tensors: &mut Vec<&'a Tensor>)
    ensures
        referenced(final(tensors)@) == referenced(old(tensors)@) + tensors_in_all(values@),
    decreases values,
{
    let mut i: usize = 0;
    while i < values.len()
        invariant
            i <= values@.len(),
            referenced(tensors@) == referenced(old(tensors)@) + tensors_in_all(
                values@.take(i as int),
            ),
        decreases values@.len() - i,
    {
        proof {
            assert(values@.take(i + 1).drop_last() =~= values@.take(i as int));
            assert(decreases_to!(values => values@));
            assert(decreases_to!(values@ => values@[i as int]));
        }
        collect_tensors(&values[i], tensors);
        i = i + 1;
    }
    proof {
        assert(values@.take(i as int) =~= values@);
    }
}

/// The size of prototypes: one picture, some channels, a grid.
pub open spec fn is_prototype_size(size: Seq<i64>) -> bool {
    size.len() == 4 && size[0] == 1 && size[1] > 0
}

/// The size of detections: one picture, and rows of `width` numbers, or their
/// transpose.
pub open spec fn is_detection_size(size: Seq<i64>, width: int) -> bool {
    size.len() == 3 && size[0] == 1 && (size[2] == width || size[1] == width)
}

/// What is looked for among the tensors.
pub enum Sought {
    Prototypes,
    /// Detections with rows of `width` numbers.
    Detections { width: int },
}

impl Sought {
    /// Whether a tensor of this size is looked for.
    pub open spec fn accepts(self, size: Seq<i64>) -> bool {
        match self {
            Sought::Prototypes => is_prototype_size(size),
            Sought::Detections { width } => is_detection_size(size, width),
        }
    }
}

/// The first of the tensors that is looked for.
pub open spec fn first_index(tensors: Seq<Tensor>, sought: Sought) -> Option<int>
    decreases tensors.len(),
{
    if tensors.len() == 0 {
        None
    } else {
        match first_index(tensors.drop_last(), sought) {
            Some(i) => Some(i),
            None => if sought.accepts(tensors.last().size@) {
                Some(tensors.len() - 1)
            } else {
                None
            },
        }
    }
}

/// Where the prototypes are among the tensors.
pub open spec fn prototype_index(tensors: Seq<Tensor>) -> Option<int> {
    first_index(tensors, Sought::Prototypes)
}

/// Where the detections with rows of `width` numbers are among the tensors.
pub open spec fn detection_index(tensors: Seq<Tensor>, width: int) -> Option<int> {
    first_index(tensors, Sought::Detections { width })
}

/// The numbers of a size, with commas between them.
pub open spec fn size_items(size: Seq<i64>) -> Seq<char>
    decreases size.len(),
{
    if size.len() == 0 {
        Seq::empty()
    } else if size.len() == 1 {
        decimal(size[0] as int)
    } else {
        size_items(size.drop_last()) + ", "@ + decimal(size.last() as int)
    }
}

/// A size as it is shown.
pub open spec fn size_text(size: Seq<i64>) -> Seq<char> {
    "["@ + size_items(size) + "]"@
}

/// The sizes of the tensors as they are shown.
pub open spec fn shapes_text(tensors: Seq<Tensor>) -> Seq<char>
    decreases tensors.len(),
{
    if tensors.len() == 0 {
        Seq::empty()
    } else if tensors.len() == 1 {
        size_text(tensors[0].size@)
    } else {
        shapes_text(tensors.drop_last()) + ", "@ + size_text(tensors.last().size@)
    }
}

/// The two tensors that the model's output has to hold.
#[derive(Debug, Clone, Copy)]
pub struct Outputs {
    /// The handle of the detections.
    pub detections: usize,
    /// Whether the rows of the detections run along the last dimension but one
    /// and have to be turned.
    pub transposed: bool,
    /// The handle of the prototypes.
    pub prototypes: usize,
    /// The number of prototypes, and the size of their grid.
    pub channels: i64,
    pub proto_height: i64,
    pub proto_width: i64,
}

fn push_size(text: &mut String, size: &Vec<i64>)
    ensures
        final(text)@ == old(text)@ + size_text(size@),
{
    text.append("[");
    let ghost start: Seq<char> = text@;
    let mut i: usize = 0;
    proof {
        assert(size@.take(0) =~= Seq::<i64>::empty());
        assert(start + size_items(size@.take(0)) =~= start);
    }
    while i < size.len()
        invariant
            i <= size@.len(),
            text@ == start + size_items(size@.take(i as int)),
        decreases size@.len() - i,
    {
        proof {
            assert(size@.take(i + 1).drop_last() =~= size@.take(i as int));
        }
        let ghost before: Seq<char> = size_items(size@.take(i as int));
        if i > 0 {
            text.append(", ");
        }
        push_decimal(text, size[i]);
        proof {
            if i > 0 {
                assert(text@ =~= start + (before + ", "@ + decimal(size@[i as int] as int)));
            } else {
                assert(text@ =~= start + decimal(size@[i as int] as int));
            }
        }
        i = i + 1;
    }
    text.append("]");
    proof {
        assert(size@.take(i as int) =~= size@);
        assert(text@ =~= old(text)@ + ("["@ + size_items(size@) + "]"@));
    }
}

/// The sizes of the tensors as they are shown.
pub fn shapes(tensors: &Vec<&Tensor>) -> (text: String)
    ensures
        text@ == shapes_text(referenced(tensors@)),
{
    let mut text: String = String::new();
    let ghost all: Seq<Tensor> = referenced(tensors@);
    let mut i: usize = 0;
    proof {
        assert(all.take(0) =~= Seq::<Tensor>::empty());
    }
    while i < tensors.len()
        invariant
            i <= tensors@.len(),
            all == referenced(tensors@),
            text@ == shapes_text(all.take(i as int)),
        decreases tensors@.len() - i,
    {
        proof {
            assert(all.take(i + 1).drop_last() =~= all.take(i as int));
        }
        if i > 0 {
            text.append(", ");
        }
        push_size(&mut text, &tensors[i].size);
        proof {
            if i == 0 {
                assert(text@ =~= size_text(all[0].size@));
            }
        }
        i = i + 1;
    }
    proof {
        assert(all.take(i as int) =~= all);
    }
    text
}

/// Detections with rows of this width or, without a width, prototypes.
spec fn sought_by(width: Option<i64>) -> Sought {
    match width {
        Some(width) => Sought::Detections { width: width as int },
        None => Sought::Prototypes,
    }
}

/// Whether a tensor of this size is looked for.
fn is_sought(size: &Vec<i64>, width: Option<i64>) -> (sought: bool)
    ensures
        sought == sought_by(width).accepts(size@),
{
    match width {
        Some(width) => size.len() == 3 && size[0] == 1 && (size[2] == width || size[1] == width),
        None => size.len() == 4 && size[0] == 1 && size[1] > 0,
    }
}

/// The position of the detections with rows of this width or, without a width, of
/// the prototypes.
fn find(tensors: &Vec<&Tensor>, width: Option<i64>) -> (position: Option<usize>)
    ensures
        match first_index(referenced(tensors@), sought_by(width)) {
            Some(i) => position == Some(i as usize) && 0 <= i < tensors@.len() && sought_by(
                width,
            ).accepts(tensors@[i].size@),
            None => position is None,
        },
{
    let ghost all: Seq<Tensor> = referenced(tensors@);
    let mut i: usize = 0;
    proof {
        assert(all.take(0) =~= Seq::<Tensor>::empty());
    }
    while i < tensors.len()
        invariant
            i <= tensors@.len(),
            all == referenced(tensors@),
            first_index(all.take(i as int), sought_by(width)) is None,
        decreases tensors@.len() - i,
    {
        proof {
            assert(all.take(i + 1).drop_last() =~= all.take(i as int));
        }
        if is_sought(&tensors[i].size, width) {
            proof {
                lemma_first_index(all, sought_by(width), i + 1);
            }
            return Some(i);
        }
        i = i + 1;
    }
    proof {
        assert(all.take(i as int) =~= all);
    }
    None
}

/// What is found first among the first tensors is found first among all.
proof fn lemma_first_index(tensors: Seq<Tensor>, sought: Sought, length: int)
    requires
        0 <= length <= tensors.len(),
        first_index(tensors.take(length), sought) is Some,
    ensures
        first_index(tensors, sought) == first_index(tensors.take(length), sought),
    decreases tensors.len(),
{
    if length == tensors.len() {
        assert(tensors.take(length) =~= tensors);
    } else {
        assert(tensors.drop_last().take(length) =~= tensors.take(length));
        lemma_first_index(tensors.drop_last(), sought, length);
    }
}

/// Picks the detections and the prototypes from the model's output.
pub fn extract_outputs(output: &Value) -> (result: Result<Outputs, Error>)
    requires
        prototype_index(tensors_in(*output)) matches Some(i) ==> tensors_in(*output)[i].size@[1]
            <= i64::MAX - 6,
    ensures
        ({
            let tensors: Seq<Tensor> = tensors_in(*output);
            match prototype_index(tensors) {
                None => result matches Err(Error::ModelOutput(text)) && text@
                    == "prototype tensor [1,C,H,W] not found; tensors: "@ + shapes_text(tensors),
                Some(p) => {
                    let width: int = tensors[p].size@[1] + 6;
                    match detection_index(tensors, width) {
                        None => result matches Err(Error::ModelOutput(text)) && text@
                            == "detection tensor [1,N,"@ + decimal(width)
                            + "] not found; tensors: "@ + shapes_text(tensors)
                            + ". Export with scripts/export_torchscript.py"@,
                        Some(d) => result == Ok::<Outputs, Error>(
                            Outputs {
                                detections: tensors[d].handle,
                                transposed: tensors[d].size@[2] != width,
                                prototypes: tensors[p].handle,
                                channels: tensors[p].size@[1],
                                proto_height: tensors[p].size@[2],
                                proto_width: tensors[p].size@[3],
                            },
                        ),
                    }
                },
            }
        }),
{
    let mut tensors: Vec<&Tensor> = Vec::new();
    proof {
        assert(referenced(tensors@) + tensors_in(*output) =~= tensors_in(*output));
    }
    collect_tensors(output, &mut tensors);
    let p: usize = match find(&tensors, None) {
        Some(position) => position,
        None => {
            let text: String = "prototype tensor [1,C,H,W] not found; tensors: ".to_string();
            return Err(Error::ModelOutput(text.concat(shapes(&tensors).as_str())));
        },
    };
    let prototypes: &Tensor = tensors[p];
    let width: i64 = prototypes.size[1] + 6;
    let d: usize = match find(&tensors, Some(width)) {
        Some(position) => position,
        None => {
            let mut text: String = "detection tensor [1,N,".to_string();
            push_decimal(&mut text, width);
            text.append("] not found; tensors: ");
            text.append(shapes(&tensors).as_str());
            text.append(". Export with scripts/export_torchscript.py");
            return Err(Error::ModelOutput(text));
        },
    };
    let detections: &Tensor = tensors[d];
    Ok(
        Outputs {
            detections: detections.handle,
            transposed: detections.size[2] != width,
            prototypes: prototypes.handle,
            channels: prototypes.size[1],
            proto_height: prototypes.size[2],
            proto_width: prototypes.size[3],
        },
    )
}

/// The tensors that are picked are the first of their size and belong together:
/// the detections carry a box, a confidence, a class and one coefficient for each
/// prototype.
pub proof fn law_outputs_belong_together(tensors: Seq<Tensor>)
    ensures
        prototype_index(tensors) matches Some(p) ==> {
            &&& 0 <= p < tensors.len()
            &&& is_prototype_size(tensors[p].size@)
            &&& forall|i: int| 0 <= i < p ==> !is_prototype_size(#[trigger] tensors[i].size@)
            &&& detection_index(tensors, tensors[p].size@[1] + 6) matches Some(d) ==> {
                &&& 0 <= d < tensors.len()
                &&& d != p
                &&& is_detection_size(tensors[d].size@, tensors[p].size@[1] + 6)
                &&& forall|i: int|
                    0 <= i < d ==> !is_detection_size(
                        #[trigger] tensors[i].size@,
                        tensors[p].size@[1] + 6,
                    )
            }
        },
{
    lemma_first_is_first(tensors, Sought::Prototypes);
    if prototype_index(tensors) is Some {
        let p: int = prototype_index(tensors)->0;
        let width: int = tensors[p].size@[1] + 6;
        lemma_first_is_first(tensors, Sought::Detections { width });
        assert forall|i: int| 0 <= i < p implies !is_prototype_size(#[trigger] tensors[i].size@) by {
            assert(!Sought::Prototypes.accepts(tensors[i].size@));
        }
        if detection_index(tensors, width) is Some {
            assert forall|i: int| 0 <= i < detection_index(tensors, width)->0 implies
                !is_detection_size(#[trigger] tensors[i].size@, width) by {
                assert(!(Sought::Detections { width }).accepts(tensors[i].size@));
            }
        }
    }
}

proof fn lemma_first_is_first(tensors: Seq<Tensor>, sought: Sought)
    ensures
        match first_index(tensors, sought) {
            Some(i) => {
                &&& 0 <= i < tensors.len()
                &&& sought.accepts(tensors[i].size@)
                &&& forall|k: int| 0 <= k < i ==> !sought.accepts(#[trigger] tensors[k].size@)
            },
            None => forall|k: int|
                0 <= k < tensors.len() ==> !sought.accepts(#[trigger] tensors[k].size@),
        },
    decreases tensors.len(),
{
    if tensors.len() > 0 {
        lemma_first_is_first(tensors.drop_last(), sought);
        assert forall|k: int| 0 <= k < tensors.len() - 1 implies tensors.drop_last()[k]
            == #[trigger] tensors[k] by {}
    }
}

/// A tensor is found as it is, a list of tensors in its order, and in collections what
/// their members hold, one after the other; of an entry first the key, then the value.
pub proof fn law_tensors_keep_their_order(
    tensor: Tensor,
    list: Vec<Tensor>,
    values: Vec<Value>,
    entries: Vec<(Value, Value)>,
)
    ensures
        tensors_in(Value::Tensor(tensor)) == seq![tensor],
        tensors_in(Value::TensorList(list)) == list@,
        tensors_in(Value::Tuple(values)) == tensors_in_all(values@),
        tensors_in(Value::GenericList(values)) == tensors_in_all(values@),
        tensors_in(Value::GenericDict(entries)) == tensors_in_entries(entries@),
        tensors_in(Value::Other) == Seq::<Tensor>::empty(),
{
}

/// The tensors of some values and some more are those of the ones and then those of
/// the others, and those of one value are its own.
pub proof fn law_tensors_of_lists(first: Seq<Value>, second: Seq<Value>, value: Value)
    ensures
        tensors_in_all(Seq::empty()) == Seq::<Tensor>::empty(),
        tensors_in_all(seq![value]) == tensors_in(value),
        tensors_in_all(first + second) == tensors_in_all(first) + tensors_in_all(second),
    decreases second.len(),
{
    let none: Seq<Value> = Seq::empty();
    assert(tensors_in_all(none) == Seq::<Tensor>::empty());
    assert(seq![value].drop_last() =~= none);
    assert(tensors_in_all(none) + tensors_in(value) =~= tensors_in(value));
    if second.len() == 0 {
        assert(first + second =~= first);
        assert(tensors_in_all(first) + tensors_in_all(second) =~= tensors_in_all(first));
    } else {
        law_tensors_of_lists(first, second.drop_last(), value);
        assert((first + second).drop_last() =~= first + second.drop_last());
        assert(tensors_in_all(first + second) =~= tensors_in_all(first) + tensors_in_all(second));
    }
}

/// The tensors of some entries and some more are those of the ones and then those of
/// the others, and those of one entry are those of its key and then of its value.
pub proof fn law_tensors_of_entries(
    first: Seq<(Value, Value)>,
    second: Seq<(Value, Value)>,
    key: Value,
    value: Value,
)
    ensures
        tensors_in_entries(Seq::empty()) == Seq::<Tensor>::empty(),
        tensors_in_entries(seq![(key, value)]) == tensors_in(key) + tensors_in(value),
        tensors_in_entries(first + second) == tensors_in_entries(first) + tensors_in_entries(
            second,
        ),
    decreases second.len(),
{
    let none: Seq<(Value, Value)> = Seq::empty();
    assert(tensors_in_entries(none) == Seq::<Tensor>::empty());
    assert(seq![(key, value)].drop_last() =~= none);
    assert(tensors_in_entries(none) + tensors_in(key) + tensors_in(value) =~= tensors_in(key)
        + tensors_in(value));
    if second.len() == 0 {
        assert(first + second =~= first);
        assert(tensors_in_entries(first) + tensors_in_entries(second) =~= tensors_in_entries(
            first,
        ));
    } else {
        law_tensors_of_entries(first, second.drop_last(), key, value);
        assert((first + second).drop_last() =~= first + second.drop_last());
        assert(tensors_in_entries(first + second) =~= tensors_in_entries(first)
            + tensors_in_entries(second));
    }
}

/// The prototypes are the first tensor of four dimensions, of which the first is 1 and
/// the second positive; where they are not found, there is no such tensor.
pub proof fn law_prototypes_are_first(tensors: Seq<Tensor>)
    ensures
        match prototype_index(tensors) {
            Some(p) => {
                &&& 0 <= p < tensors.len()
                &&& tensors[p].size@.len() == 4
                &&& tensors[p].size@[0] == 1
                &&& tensors[p].size@[1] > 0
                &&& forall|i: int|
                    0 <= i < p ==> {
                        let size: Seq<i64> = (#[trigger] tensors[i]).size@;
                        size.len() != 4 || size[0] != 1 || size[1] <= 0
                    }
            },
            None => forall|i: int|
                0 <= i < tensors.len() ==> {
                    let size: Seq<i64> = (#[trigger] tensors[i]).size@;
                    size.len() != 4 || size[0] != 1 || size[1] <= 0
                },
        },
{
    lemma_first_is_first(tensors, Sought::Prototypes);
    assert forall|i: int|
        0 <= i < tensors.len() && !Sought::Prototypes.accepts(tensors[i].size@) implies {
        let size: Seq<i64> = (#[trigger] tensors[i]).size@;
        size.len() != 4 || size[0] != 1 || size[1] <= 0
    } by {}
}

/// The detections are the first tensor of three dimensions, of which the first is 1 and
/// one of the others the wanted width; where they are not found, there is no such
/// tensor.
pub proof fn law_detections_are_first(tensors: Seq<Tensor>, width: int)
    ensures
        match detection_index(tensors, width) {
            Some(d) => {
                &&& 0 <= d < tensors.len()
                &&& tensors[d].size@.len() == 3
                &&& tensors[d].size@[0] == 1
                &&& tensors[d].size@[1] == width || tensors[d].size@[2] == width
                &&& forall|i: int|
                    0 <= i < d ==> {
                        let size: Seq<i64> = (#[trigger] tensors[i]).size@;
                        size.len() != 3 || size[0] != 1 || (size[1] != width && size[2] != width)
                    }
            },
            None => forall|i: int|
                0 <= i < tensors.len() ==> {
                    let size: Seq<i64> = (#[trigger] tensors[i]).size@;
                    size.len() != 3 || size[0] != 1 || (size[1] != width && size[2] != width)
                },
        },
{
    let sought: Sought = Sought::Detections { width };
    lemma_first_is_first(tensors, sought);
    assert forall|i: int| 0 <= i < tensors.len() && !sought.accepts(tensors[i].size@) implies {
        let size: Seq<i64> = (#[trigger] tensors[i]).size@;
        size.len() != 3 || size[0] != 1 || (size[1] != width && size[2] != width)
    } by {}
}

/// A size is shown in square brackets. The text of some numbers and some more has a
/// comma and a space between them, and that of one is its decimal notation.
pub proof fn law_size_text(first: Seq<i64>, second: Seq<i64>, number: i64)
    ensures
        size_text(first) == "["@ + size_items(first) + "]"@,
        size_items(Seq::empty()) == Seq::<char>::empty(),
        size_items(seq![number]) == decimal(number as int),
        first.len() > 0 && second.len() > 0 ==> size_items(first + second) == size_items(first)
            + ", "@ + size_items(second),
    decreases second.len(),
{
    assert(size_items(Seq::<i64>::empty()) == Seq::<char>::empty());
    if first.len() > 0 && second.len() > 0 {
        let all: Seq<i64> = first + second;
        assert(all.drop_last() =~= first + second.drop_last());
        if second.len() == 1 {
            assert(all.drop_last() =~= first);
        } else {
            law_size_text(first, second.drop_last(), number);
            assert(size_items(all) =~= size_items(first) + ", "@ + size_items(second));
        }
    }
}

/// The text of some tensors and some more has a comma and a space between them, and
/// that of one is its size.
pub proof fn law_shapes_text(first: Seq<Tensor>, second: Seq<Tensor>, tensor: Tensor)
    ensures
        shapes_text(Seq::empty()) == Seq::<char>::empty(),
        shapes_text(seq![tensor]) == size_text(tensor.size@),
        first.len() > 0 && second.len() > 0 ==> shapes_text(first + second) == shapes_text(first)
            + ", "@ + shapes_text(second),
    decreases second.len(),
{
    assert(shapes_text(Seq::<Tensor>::empty()) == Seq::<char>::empty());
    if first.len() > 0 && second.len() > 0 {
        let all: Seq<Tensor> = first + second;
        assert(all.drop_last() =~= first + second.drop_last());
        if second.len() == 1 {
            assert(all.drop_last() =~= first);
        } else {
            law_shapes_text(first, second.drop_last(), tensor);
            assert(shapes_text(all) =~= shapes_text(first) + ", "@ + shapes_text(second));
        }
    }
}

/// The tensors behind a list of references are theirs, one for one.
pub proof fn law_referenced(tensors: Seq<&Tensor>)
    ensures
        referenced(tensors).len() == tensors.len(),
        forall|i: int| 0 <= i < tensors.len() ==> referenced(tensors)[i] == *#[trigger] tensors[i],
{
}

} // verus!
