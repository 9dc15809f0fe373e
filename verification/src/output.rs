//! What flows along the edges of a flow, and how the outputs of several
//! parents merge into the input of one node.

use crate::strmap::{
    as_map, has_key, keys_distinct, lemma_as_map_entry, lemma_insert_as_map,
    lemma_insert_keeps_distinct, place_of_key, spec_insert, StrMap,
};
use crate::text::{join, lemma_join_push, newline, push_char};
use vstd::prelude::*;
use vstd::string::StringExecFns;

verus! {

/// One content record.
#[derive(Clone, Debug)]
pub struct ContentItem {
    pub title: String,
    pub url: String,
    pub summary: String,
    /// When the record was published, in seconds since the Unix epoch.
    pub published: Option<i64>,
    pub image_url: Option<String>,
}

/// Where a text came from: what the run cost, in millionths of a dollar,
/// how many turns it took, and how long, in milliseconds.
#[derive(Clone, Copy, Debug, PartialEq, Eq, Structural)]
pub struct ExecutionResult {
    pub cost_micro_usd: u64,
    pub turns: u64,
    pub duration_ms: u64,
}

/// Variable bindings, in the order in which their names first arrived.
pub type ContextMap = StrMap<String>;

/// The value that a node hands to its children.
#[derive(Clone, Debug)]
pub enum NodeOutput {
    /// Content records from sources and filters.
    Items(Vec<ContentItem>),
    /// Text from an executor, with its provenance where there is one.
    Text(String, Option<ExecutionResult>),
    /// Variable bindings from a trigger.
    Context(ContextMap),
    /// No payload.
    Empty,
    /// This node failed or was skipped: its descendants are skipped.
    Failed,
}

// ---------------------------------------------------------------------------
// The model
// ---------------------------------------------------------------------------

/// A content record, its strings as sequences of characters.
pub struct ItemModel {
    pub title: Seq<char>,
    pub url: Seq<char>,
    pub summary: Seq<char>,
    pub published: Option<i64>,
    pub image_url: Option<Seq<char>>,
}

/// A node output, its strings as sequences of characters and its bindings
/// as a sequence of `(name, value)` pairs.
pub enum OutputModel {
    Items(Seq<ItemModel>),
    Text(Seq<char>, Option<ExecutionResult>),
    Context(Seq<(Seq<char>, Seq<char>)>),
    Empty,
    Failed,
}

impl View for ContentItem {
    type V = ItemModel;

    open spec fn view(&self) -> ItemModel {
        ItemModel {
            title: self.title@,
            url: self.url@,
            summary: self.summary@,
            published: self.published,
            image_url: match self.image_url {
                Some(s) => Some(s@),
                None => None,
            },
        }
    }
}

/// The models of the items of `v`.
pub open spec fn item_models(v: Seq<ContentItem>) -> Seq<ItemModel> {
    Seq::new(v.len(), |i: int| v[i]@)
}

/// The bindings of `pairs`, each value by its characters.
pub open spec fn bindings(pairs: Seq<(Seq<char>, String)>) -> Seq<(Seq<char>, Seq<char>)> {
    Seq::new(pairs.len(), |i: int| (pairs[i].0, pairs[i].1@))
}

impl View for NodeOutput {
    type V = OutputModel;

    open spec fn view(&self) -> OutputModel {
        match *self {
            NodeOutput::Items(v) => OutputModel::Items(item_models(v@)),
            NodeOutput::Text(t, r) => OutputModel::Text(t@, r),
            NodeOutput::Context(m) => OutputModel::Context(bindings(m.pairs())),
            NodeOutput::Empty => OutputModel::Empty,
            NodeOutput::Failed => OutputModel::Failed,
        }
    }
}

/// The models of the outputs of `v`.
pub open spec fn output_models(v: Seq<NodeOutput>) -> Seq<OutputModel> {
    Seq::new(v.len(), |i: int| v[i]@)
}

/// Which of the five variants an output is.
#[derive(Clone, Copy, Debug, PartialEq, Eq, Structural)]
pub enum OutputKind {
    Items,
    Text,
    Context,
    Empty,
    Failed,
}

/// The variant of `o`.
pub open spec fn kind_of(o: OutputModel) -> OutputKind {
    match o {
        OutputModel::Items(_) => OutputKind::Items,
        OutputModel::Text(_, _) => OutputKind::Text,
        OutputModel::Context(_) => OutputKind::Context,
        OutputModel::Empty => OutputKind::Empty,
        OutputModel::Failed => OutputKind::Failed,
    }
}

/// Some output of `outs` is of the variant `k`.
pub open spec fn has_kind(outs: Seq<OutputModel>, k: OutputKind) -> bool {
    exists|i: int| 0 <= i < outs.len() && kind_of(#[trigger] outs[i]) == k
}

/// The items of all `Items` outputs, in the order of `outs`.
pub open spec fn all_items(outs: Seq<OutputModel>) -> Seq<ItemModel>
    decreases outs.len(),
{
    if outs.len() == 0 {
        Seq::empty()
    } else {
        match outs.last() {
            OutputModel::Items(v) => all_items(outs.drop_last()) + v,
            _ => all_items(outs.drop_last()),
        }
    }
}

/// The texts of all `Text` outputs, in the order of `outs`.
pub open spec fn all_texts(outs: Seq<OutputModel>) -> Seq<Seq<char>>
    decreases outs.len(),
{
    if outs.len() == 0 {
        Seq::empty()
    } else {
        match outs.last() {
            OutputModel::Text(t, _) => all_texts(outs.drop_last()).push(t),
            _ => all_texts(outs.drop_last()),
        }
    }
}

/// `base` after every binding of `more` has been stored in it, first to
/// last: a later value replaces an earlier one under the same name.
pub open spec fn extend_bindings(
    base: Seq<(Seq<char>, Seq<char>)>,
    more: Seq<(Seq<char>, Seq<char>)>,
) -> Seq<(Seq<char>, Seq<char>)>
    decreases more.len(),
{
    if more.len() == 0 {
        base
    } else {
        spec_insert(extend_bindings(base, more.drop_last()), more.last().0, more.last().1)
    }
}

/// The bindings of all `Context` outputs folded from left to right.
pub open spec fn all_bindings(outs: Seq<OutputModel>) -> Seq<(Seq<char>, Seq<char>)>
    decreases outs.len(),
{
    if outs.len() == 0 {
        Seq::empty()
    } else {
        match outs.last() {
            OutputModel::Context(m) => extend_bindings(all_bindings(outs.drop_last()), m),
            _ => all_bindings(outs.drop_last()),
        }
    }
}

/// The merge of the outputs of the parents of a node, in parent order.
///
/// Nothing merges to `Empty`. One `Failed` makes the merge `Failed`. Else
/// the richest kind present decides: `Items` before `Text` before `Context`.
/// Items are concatenated; texts are joined by single line feeds and lose
/// their provenance; bindings are folded from left to right.
pub open spec fn spec_merge(outs: Seq<OutputModel>) -> OutputModel {
    if outs.len() == 0 {
        OutputModel::Empty
    } else if has_kind(outs, OutputKind::Failed) {
        OutputModel::Failed
    } else if has_kind(outs, OutputKind::Items) {
        OutputModel::Items(all_items(outs))
    } else if has_kind(outs, OutputKind::Text) {
        OutputModel::Text(join(all_texts(outs), newline()), None)
    } else if has_kind(outs, OutputKind::Context) {
        OutputModel::Context(all_bindings(outs))
    } else {
        OutputModel::Empty
    }
}

/// The line that shows one binding: the name, a colon, a space, the value.
pub open spec fn binding_line(b: (Seq<char>, Seq<char>)) -> Seq<char> {
    b.0 + seq![':', ' '] + b.1
}

/// The lines that show `pairs`, one binding each.
pub open spec fn binding_lines(pairs: Seq<(Seq<char>, Seq<char>)>) -> Seq<Seq<char>> {
    Seq::new(pairs.len(), |i: int| binding_line(pairs[i]))
}

// ---------------------------------------------------------------------------
// Facts about the model
// ---------------------------------------------------------------------------

/// One more output has a kind among the outputs exactly when the outputs
/// before had it or the new one is of it.
proof fn lemma_has_kind_step(outs: Seq<OutputModel>, i: int, k: OutputKind)
    requires
        0 <= i < outs.len(),
    ensures
        has_kind(outs.take(i + 1), k) <==> has_kind(outs.take(i), k) || kind_of(outs[i]) == k,
{
    let wide = outs.take(i + 1);
    let narrow = outs.take(i);
    if has_kind(wide, k) {
        let j = choose|j: int| 0 <= j < wide.len() && kind_of(#[trigger] wide[j]) == k;
        if j < i {
            assert(kind_of(narrow[j]) == k);
        }
    }
    if has_kind(narrow, k) {
        let j = choose|j: int| 0 <= j < narrow.len() && kind_of(#[trigger] narrow[j]) == k;
        assert(kind_of(wide[j]) == k);
    }
    if kind_of(outs[i]) == k {
        assert(kind_of(wide[i]) == k);
    }
}

/// There are texts exactly when some output is a `Text`.
proof fn lemma_texts_present(outs: Seq<OutputModel>)
    ensures
        all_texts(outs).len() > 0 <==> has_kind(outs, OutputKind::Text),
    decreases outs.len(),
{
    if outs.len() > 0 {
        lemma_texts_present(outs.drop_last());
        assert(outs.take(outs.len() - 1) == outs.drop_last());
        assert(outs.take(outs.len() as int) == outs);
        lemma_has_kind_step(outs, outs.len() - 1, OutputKind::Text);
    }
}

/// The model of a map of strings has distinct names, as the map has.
pub proof fn lemma_bindings_distinct(pairs: Seq<(Seq<char>, String)>)
    requires
        keys_distinct(pairs),
    ensures
        keys_distinct(bindings(pairs)),
{
    let model = bindings(pairs);
    assert forall|i: int, j: int| 0 <= i < j < model.len() implies model[i].0 != model[j].0 by {
        assert(pairs[i].0 != pairs[j].0);
    }
}

/// Storing a binding in a map of strings is storing it in its model.
pub proof fn lemma_bindings_insert(pairs: Seq<(Seq<char>, String)>, key: Seq<char>, value: String)
    requires
        keys_distinct(pairs),
    ensures
        bindings(spec_insert(pairs, key, value)) == spec_insert(bindings(pairs), key, value@),
        keys_distinct(bindings(pairs)),
{
    let model = bindings(pairs);
    assert forall|i: int, j: int| 0 <= i < j < model.len() implies model[i].0 != model[j].0 by {
        assert(pairs[i].0 != pairs[j].0);
    }
    if has_key(pairs, key) {
        let i = place_of_key(pairs, key);
        assert(model[i].0 == key);
        lemma_as_map_entry(model, i);
        assert(bindings(spec_insert(pairs, key, value)) =~= spec_insert(model, key, value@));
    } else {
        if has_key(model, key) {
            let i = place_of_key(model, key);
            assert(pairs[i].0 == key);
        }
        assert(bindings(spec_insert(pairs, key, value)) =~= spec_insert(model, key, value@));
    }
}

// ---------------------------------------------------------------------------
// The functions
// ---------------------------------------------------------------------------

impl ContentItem {
    /// A copy of the record.
    pub fn duplicate(&self) -> (copy: ContentItem)
        ensures
            copy@ == self@,
    {
        ContentItem {
            title: self.title.clone(),
            url: self.url.clone(),
            summary: self.summary.clone(),
            published: self.published,
            image_url: match &self.image_url {
                Some(s) => Some(s.clone()),
                None => None,
            },
        }
    }
}

/// Appends copies of the records of `more` to `items`.
pub fn append_items(items: &mut Vec<ContentItem>, more: &Vec<ContentItem>)
    ensures
        item_models(final(items)@) == item_models(old(items)@) + item_models(more@),
{
    let mut i: usize = 0;
    while i < more.len()
        invariant
            i <= more@.len(),
            item_models(items@) == item_models(old(items)@) + item_models(more@).take(i as int),
        decreases more@.len() - i,
    {
        let ghost before = items@;
        items.push(more[i].duplicate());
        proof {
            let tail = item_models(more@);
            assert(item_models(items@) =~= item_models(before).push(tail[i as int]));
            assert(tail.take(i + 1) =~= tail.take(i as int).push(tail[i as int]));
            assert(item_models(items@) =~= item_models(old(items)@) + tail.take(i + 1));
        }
        i = i + 1;
    }
    assert(item_models(more@).take(more@.len() as int) == item_models(more@));
}

/// Stores every binding of `more` in `base`, first to last.
pub fn extend_context(base: &mut ContextMap, more: &ContextMap)
    ensures
        bindings(final(base).pairs()) == extend_bindings(
            bindings(old(base).pairs()),
            bindings(more.pairs()),
        ),
{
    let ghost extra = bindings(more.pairs());
    let mut i: usize = 0;
    while i < more.len()
        invariant
            i <= more.pairs().len(),
            extra == bindings(more.pairs()),
            bindings(base.pairs()) == extend_bindings(
                bindings(old(base).pairs()),
                extra.take(i as int),
            ),
        decreases more.pairs().len() - i,
    {
        let key = more.key_at(i).clone();
        let value = more.value_at(i).clone();
        proof {
            use_type_invariant(&*base);
            lemma_bindings_insert(base.pairs(), key@, value);
            assert(extra.take(i + 1).drop_last() == extra.take(i as int));
            assert(extra.take(i + 1).last() == (key@, value@));
        }
        base.insert(key, value);
        i = i + 1;
    }
    assert(extra.take(more.pairs().len() as int) == extra);
}

impl NodeOutput {
    /// The variant of this output.
    pub fn kind(&self) -> (k: OutputKind)
        ensures
            k == kind_of(self@),
    {
        match self {
            NodeOutput::Items(_) => OutputKind::Items,
            NodeOutput::Text(_, _) => OutputKind::Text,
            NodeOutput::Context(_) => OutputKind::Context,
            NodeOutput::Empty => OutputKind::Empty,
            NodeOutput::Failed => OutputKind::Failed,
        }
    }

    /// A copy of the output.
    pub fn duplicate(&self) -> (copy: NodeOutput)
        ensures
            copy@ == self@,
    {
        match self {
            NodeOutput::Items(v) => {
                let mut items: Vec<ContentItem> = Vec::new();
                append_items(&mut items, v);
                assert(item_models(items@) =~= item_models(v@));
                NodeOutput::Items(items)
            },
            NodeOutput::Text(t, r) => NodeOutput::Text(t.clone(), *r),
            NodeOutput::Context(m) => {
                let mut copy: ContextMap = StrMap::new();
                extend_context(&mut copy, m);
                proof {
                    use_type_invariant(m);
                    assert(bindings(Seq::<(Seq<char>, String)>::empty()) =~= Seq::<
                        (Seq<char>, Seq<char>),
                    >::empty());
                    lemma_bindings_distinct(m.pairs());
                    lemma_extend_empty(bindings(m.pairs()));
                }
                NodeOutput::Context(copy)
            },
            NodeOutput::Empty => NodeOutput::Empty,
            NodeOutput::Failed => NodeOutput::Failed,
        }
    }

    /// Merges the outputs of the parents of a node, given in parent order,
    /// into the input of that node.
    pub fn merge(outputs: Vec<NodeOutput>) -> (r: NodeOutput)
        ensures
            r@ == spec_merge(output_models(outputs@)),
            has_kind(output_models(outputs@), OutputKind::Failed) ==> r is Failed,
            !has_kind(output_models(outputs@), OutputKind::Failed) ==> (if has_kind(
                output_models(outputs@),
                OutputKind::Items,
            ) {
                r is Items
            } else if has_kind(output_models(outputs@), OutputKind::Text) {
                r is Text
            } else if has_kind(output_models(outputs@), OutputKind::Context) {
                r is Context
            } else {
                r is Empty
            }),
    {
        let ghost outs = output_models(outputs@);
        if outputs.len() == 0 {
            return NodeOutput::Empty;
        }
        let mut i: usize = 0;
        while i < outputs.len()
            invariant
                i <= outputs@.len(),
                outs == output_models(outputs@),
                !has_kind(outs.take(i as int), OutputKind::Failed),
            decreases outputs@.len() - i,
        {
            proof {
                lemma_has_kind_step(outs, i as int, OutputKind::Failed);
            }
            match outputs[i].kind() {
                OutputKind::Failed => {
                    assert(kind_of(outs[i as int]) == OutputKind::Failed);
                    return NodeOutput::Failed;
                },
                _ => {},
            }
            i = i + 1;
        }
        assert(outs.take(outputs@.len() as int) == outs);
        let mut items: Vec<ContentItem> = Vec::new();
        let mut text = String::new();
        let mut context: ContextMap = StrMap::new();
        let mut has_items = false;
        let mut has_text = false;
        let mut has_context = false;
        let mut i: usize = 0;
        assert(bindings(context.pairs()) =~= all_bindings(outs.take(0)));
        assert(item_models(items@) =~= all_items(outs.take(0)));
        while i < outputs.len()
            invariant
                i <= outputs@.len(),
                outs == output_models(outputs@),
                has_items == has_kind(outs.take(i as int), OutputKind::Items),
                has_text == has_kind(outs.take(i as int), OutputKind::Text),
                has_context == has_kind(outs.take(i as int), OutputKind::Context),
                item_models(items@) == all_items(outs.take(i as int)),
                text@ == join(all_texts(outs.take(i as int)), newline()),
                bindings(context.pairs()) == all_bindings(outs.take(i as int)),
            decreases outputs@.len() - i,
        {
            proof {
                lemma_has_kind_step(outs, i as int, OutputKind::Items);
                lemma_has_kind_step(outs, i as int, OutputKind::Text);
                lemma_has_kind_step(outs, i as int, OutputKind::Context);
                lemma_texts_present(outs.take(i as int));
                assert(outs.take(i + 1).drop_last() == outs.take(i as int));
                assert(outs.take(i + 1).last() == outputs@[i as int]@);
            }
            match &outputs[i] {
                NodeOutput::Items(v) => {
                    has_items = true;
                    append_items(&mut items, v);
                },
                NodeOutput::Text(t, _) => {
                    proof {
                        lemma_join_push(all_texts(outs.take(i as int)), newline(), t@);
                    }
                    if has_text {
                        push_char(&mut text, '\n');
                    }
                    text.append(t.as_str());
                    has_text = true;
                    assert(text@ =~= join(all_texts(outs.take(i + 1)), newline()));
                },
                NodeOutput::Context(m) => {
                    has_context = true;
                    extend_context(&mut context, m);
                },
                NodeOutput::Empty => {},
                NodeOutput::Failed => {},
            }
            i = i + 1;
        }
        assert(outs.take(outputs@.len() as int) == outs);
        if has_items {
            NodeOutput::Items(items)
        } else if has_text {
            NodeOutput::Text(text, None)
        } else if has_context {
            NodeOutput::Context(context)
        } else {
            NodeOutput::Empty
        }
    }

    /// The output as text, for prompts and sinks: the records as
    /// `format_items` renders them, the text itself, the bindings one per
    /// line as `name: value`, and nothing for `Empty` and `Failed`.
    pub fn as_text<F: Fn(&Vec<ContentItem>) -> String>(&self, format_items: F) -> (s: String)
        requires
            self matches NodeOutput::Items(v) ==> call_requires(format_items, (&v,)),
        ensures
            match *self {
                NodeOutput::Items(v) => call_ensures(format_items, (&v,), s),
                NodeOutput::Text(t, _) => s@ == t@,
                NodeOutput::Context(m) => s@ == join(
                    binding_lines(bindings(m.pairs())),
                    newline(),
                ),
                NodeOutput::Empty => s@ == Seq::<char>::empty(),
                NodeOutput::Failed => s@ == Seq::<char>::empty(),
            },
    {
        match self {
            NodeOutput::Items(v) => format_items(v),
            NodeOutput::Text(t, _) => t.clone(),
            NodeOutput::Context(m) => {
                let ghost lines = binding_lines(bindings(m.pairs()));
                let mut s = String::new();
                let mut i: usize = 0;
                while i < m.len()
                    invariant
                        i <= m.pairs().len(),
                        lines == binding_lines(bindings(m.pairs())),
                        s@ == join(lines.take(i as int), newline()),
                    decreases m.pairs().len() - i,
                {
                    proof {
                        lemma_join_push(lines.take(i as int), newline(), lines[i as int]);
                        assert(lines.take(i + 1) == lines.take(i as int).push(lines[i as int]));
                    }
                    if i > 0 {
                        push_char(&mut s, '\n');
                    }
                    s.append(m.key_at(i).as_str());
                    push_char(&mut s, ':');
                    push_char(&mut s, ' ');
                    s.append(m.value_at(i).as_str());
                    assert(s@ =~= join(lines.take(i + 1), newline()));
                    i = i + 1;
                }
                assert(lines.take(m.pairs().len() as int) == lines);
                s
            },
            NodeOutput::Empty => String::new(),
            NodeOutput::Failed => String::new(),
        }
    }

    /// The records of an `Items` output; no records for any other.
    pub fn as_items(&self) -> (items: Vec<ContentItem>)
        ensures
            item_models(items@) == match self@ {
                OutputModel::Items(v) => v,
                _ => Seq::empty(),
            },
    {
        let mut items: Vec<ContentItem> = Vec::new();
        match self {
            NodeOutput::Items(v) => {
                append_items(&mut items, v);
                assert(item_models(items@) =~= item_models(v@));
            },
            _ => {
                assert(item_models(items@) =~= Seq::<ItemModel>::empty());
            },
        }
        items
    }

    /// The bindings of a `Context` output.
    pub fn as_context(&self) -> (r: Option<&ContextMap>)
        ensures
            match *self {
                NodeOutput::Context(m) => r == Some(&m),
                _ => r is None,
            },
    {
        match self {
            NodeOutput::Context(m) => Some(m),
            _ => None,
        }
    }
}

/// Storing bindings with distinct names in an empty list gives back those
/// bindings.
pub proof fn lemma_extend_empty(more: Seq<(Seq<char>, Seq<char>)>)
    requires
        keys_distinct(more),
    ensures
        extend_bindings(Seq::empty(), more) == more,
    decreases more.len(),
{
    if more.len() > 0 {
        let front = more.drop_last();
        assert forall|i: int, j: int| 0 <= i < j < front.len() implies front[i].0
            != front[j].0 by {
            assert(more[i].0 != more[j].0);
        }
        lemma_extend_empty(front);
        if has_key(front, more.last().0) {
            let i = place_of_key(front, more.last().0);
            assert(more[i].0 == more[more.len() - 1].0);
        }
        assert(front.push(more.last()) =~= more);
    }
}

// ---------------------------------------------------------------------------
// What the merge owes
// ---------------------------------------------------------------------------

/// One `Failed` among the outputs makes the merge `Failed`.
pub proof fn law_failed_poisons_merge(outs: Seq<OutputModel>)
    requires
        has_kind(outs, OutputKind::Failed),
    ensures
        spec_merge(outs) is Failed,
{
}

/// Without a `Failed` among the outputs, the richest kind among them is
/// the kind of the merge: `Items` before `Text` before `Context`, and
/// `Empty` where there is none of these.
pub proof fn law_merge_precedence(outs: Seq<OutputModel>)
    requires
        !has_kind(outs, OutputKind::Failed),
    ensures
        has_kind(outs, OutputKind::Items) ==> spec_merge(outs) is Items,
        !has_kind(outs, OutputKind::Items) && has_kind(outs, OutputKind::Text) ==> spec_merge(
            outs,
        ) is Text,
        !has_kind(outs, OutputKind::Items) && !has_kind(outs, OutputKind::Text) && has_kind(
            outs,
            OutputKind::Context,
        ) ==> spec_merge(outs) is Context,
        !has_kind(outs, OutputKind::Items) && !has_kind(outs, OutputKind::Text) && !has_kind(
            outs,
            OutputKind::Context,
        ) ==> spec_merge(outs) is Empty,
        !(spec_merge(outs) is Failed),
{
    if outs.len() > 0 {
        assert(kind_of(outs[0]) != OutputKind::Failed);
    }
}

/// Folding bindings into others is a union of maps in which the later
/// binding wins: a name bound in `more` has the value that `more` gives
/// it, and any other name keeps the value that `base` gives it.
pub proof fn law_later_binding_wins(
    base: Seq<(Seq<char>, Seq<char>)>,
    more: Seq<(Seq<char>, Seq<char>)>,
)
    requires
        keys_distinct(base),
        keys_distinct(more),
    ensures
        keys_distinct(extend_bindings(base, more)),
        as_map(extend_bindings(base, more)) == as_map(base).union_prefer_right(as_map(more)),
    decreases more.len(),
{
    if more.len() == 0 {
        assert(as_map(more) =~= Map::<Seq<char>, Seq<char>>::empty());
        assert(as_map(base).union_prefer_right(as_map(more)) =~= as_map(base));
    } else {
        let front = more.drop_last();
        let last = more.last();
        assert forall|i: int, j: int| 0 <= i < j < front.len() implies front[i].0
            != front[j].0 by {
            assert(more[i].0 != more[j].0);
        }
        law_later_binding_wins(base, front);
        let before = extend_bindings(base, front);
        lemma_insert_keeps_distinct(before, last.0, last.1);
        lemma_insert_as_map(before, last.0, last.1);
        assert(!has_key(front, last.0)) by {
            if has_key(front, last.0) {
                let i = place_of_key(front, last.0);
                assert(more[i].0 == more[more.len() - 1].0);
            }
        }
        assert(more =~= spec_insert(front, last.0, last.1));
        lemma_insert_as_map(front, last.0, last.1);
        assert(as_map(base).union_prefer_right(as_map(front)).insert(last.0, last.1) =~= as_map(
            base,
        ).union_prefer_right(as_map(front).insert(last.0, last.1)));
    }
}

} // verus!
