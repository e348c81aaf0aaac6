//! The view tree: an immutable description of a user interface.
use vstd::prelude::*;
use vstd::std_specs::cmp::PartialEqSpec;

verus! {

/// The kind of a declared element.
#[derive(Clone, Copy, Debug, PartialEq, Eq, Structural)]
pub enum Kind {
    Label,
    Button,
    Stack,
    Field,
}

/// The complete attribute set of an element. Every field is optional, so the
/// set carries no order of its own.
#[derive(Debug)]
pub struct Attributes<S> {
    pub text: Option<String>,
    pub placeholder: Option<String>,
    pub click: Option<S>,
}

/// What an attribute set stands for.
pub ghost struct AttributesView<S> {
    pub text: Option<Seq<char>>,
    pub placeholder: Option<Seq<char>>,
    pub click: Option<S>,
}

/// A view tree, as a mathematical value.
pub ghost struct NodeView<S> {
    pub kind: Kind,
    pub attributes: AttributesView<S>,
    pub children: Seq<NodeView<S>>,
}

pub open spec fn option_str_view(o: Option<String>) -> Option<Seq<char>> {
    match o {
        Some(s) => Some(s@),
        None => None,
    }
}

impl<S> View for Attributes<S> {
    type V = AttributesView<S>;

    open spec fn view(&self) -> AttributesView<S> {
        AttributesView {
            text: option_str_view(self.text),
            placeholder: option_str_view(self.placeholder),
            click: self.click,
        }
    }
}

/// One element of a view tree with its children, in order.
#[derive(Debug)]
pub struct Object<S> {
    pub kind: Kind,
    pub attributes: Attributes<S>,
    pub children: Vec<Object<S>>,
}

impl<S> Object<S> {
    pub open spec fn view_of(self) -> NodeView<S>
        decreases self,
    {
        NodeView {
            kind: self.kind,
            attributes: self.attributes@,
            children: Seq::new(
                self.children.len() as nat,
                |i: int|
                    if 0 <= i < self.children.len() {
                        self.children@[i].view_of()
                    } else {
                        arbitrary()
                    },
            ),
        }
    }
}

impl<S> View for Object<S> {
    type V = NodeView<S>;

    open spec fn view(&self) -> NodeView<S> {
        self.view_of()
    }
}

/// The views of a sequence of elements.
pub open spec fn nodes_view<S>(s: Seq<Object<S>>) -> Seq<NodeView<S>> {
    Seq::new(s.len(), |i: int| s[i]@)
}

/// Equality of messages as the library compares them: the message type's
/// `==` is equality of values.
pub open spec fn eq_is_equality<S: PartialEq>() -> bool {
    &&& S::obeys_eq_spec()
    &&& forall|x: S, y: S| (x.eq_spec(&y)) <==> (x == y)
}

fn same_text(a: &Option<String>, b: &Option<String>) -> (r: bool)
    ensures
        r == (option_str_view(*a) == option_str_view(*b)),
{
    match (a, b) {
        (Some(x), Some(y)) => {
            let r = *x == *y;
            r
        },
        (None, None) => true,
        _ => false,
    }
}

impl<S: PartialEq> Attributes<S> {
    /// Compares two attribute sets.
    pub fn same(&self, other: &Attributes<S>) -> (r: bool)
        requires
            eq_is_equality::<S>(),
        ensures
            r == (self@ == other@),
    {
        let click_same = match (&self.click, &other.click) {
            (Some(x), Some(y)) => x == y,
            (None, None) => true,
            _ => false,
        };
        same_text(&self.text, &other.text) && same_text(&self.placeholder, &other.placeholder)
            && click_same
    }
}

/// Cloning a message gives the same message.
pub open spec fn clone_is_copy<S: Clone>() -> bool {
    forall|a: S, b: S| #[trigger] call_ensures(S::clone, (&a,), b) ==> a == b
}

fn copy_text(a: &Option<String>) -> (r: Option<String>)
    ensures
        option_str_view(r) == option_str_view(*a),
{
    match a {
        Some(x) => Some(x.clone()),
        None => None,
    }
}

impl<S: Clone> Attributes<S> {
    /// A copy of this attribute set.
    pub fn copy(&self) -> (r: Attributes<S>)
        requires
            clone_is_copy::<S>(),
        ensures
            r@ == self@,
    {
        let click = match &self.click {
            Some(m) => Some(m.clone()),
            None => None,
        };
        Attributes { text: copy_text(&self.text), placeholder: copy_text(&self.placeholder), click }
    }
}

impl<S: Clone> Object<S> {
    /// A copy of this tree.
    pub fn copy(&self) -> (r: Object<S>)
        requires
            clone_is_copy::<S>(),
        ensures
            r@ == self@,
        decreases self,
    {
        let mut children: Vec<Object<S>> = Vec::new();
        let n = self.children.len();
        let mut i: usize = 0;
        while i < n
            invariant
                clone_is_copy::<S>(),
                n == self.children.len(),
                i <= n,
                children.len() == i,
                forall|j: int| 0 <= j < i ==> #[trigger] children@[j]@ == self.children@[j]@,
            decreases n - i,
        {
            proof {
                assert(decreases_to!(self => self.children));
                assert(decreases_to!(self.children => self.children[i as int]));
            }
            children.push(self.children[i].copy());
            i = i + 1;
        }
        let r = Object { kind: self.kind, attributes: self.attributes.copy(), children };
        assert(r@.children.len() == self@.children.len());
        assert forall|j: int| 0 <= j < n implies r@.children[j] == self@.children[j] by {
            assert(r.children@[j]@ == self.children@[j]@);
        }
        assert(r@.children =~= self@.children);
        r
    }
}

/// An attribute set with nothing in it.
pub fn empty_attributes<S>() -> (r: Attributes<S>)
    ensures
        r@ == (AttributesView::<S> { text: None, placeholder: None, click: None }),
{
    Attributes { text: None, placeholder: None, click: None }
}

/// An element of the given kind, with no attributes and no children.
pub fn element<S>(kind: Kind) -> (r: Object<S>)
    ensures
        r@ == (NodeView::<S> {
            kind,
            attributes: AttributesView { text: None, placeholder: None, click: None },
            children: Seq::empty(),
        }),
{
    let r = Object { kind, attributes: empty_attributes(), children: Vec::new() };
    assert(r@.children =~= Seq::<NodeView<S>>::empty());
    r
}

/// A stack holding the given children, in order.
pub fn stack<S>(children: Vec<Object<S>>) -> (r: Object<S>)
    ensures
        r@.kind == Kind::Stack,
        r@.attributes == (AttributesView::<S> { text: None, placeholder: None, click: None }),
        r@.children == nodes_view(children@),
{
    let r = Object { kind: Kind::Stack, attributes: empty_attributes(), children };
    assert(r@.children =~= nodes_view(children@));
    r
}

/// A button showing `text`.
pub fn button<S>(text: String) -> (r: Object<S>)
    ensures
        r@ == (NodeView::<S> {
            kind: Kind::Button,
            attributes: AttributesView { text: Some(text@), placeholder: None, click: None },
            children: Seq::empty(),
        }),
{
    element(Kind::Button).text(text)
}

/// A label with no text.
pub fn label<S>() -> (r: Object<S>)
    ensures
        r@ == (NodeView::<S> {
            kind: Kind::Label,
            attributes: AttributesView { text: None, placeholder: None, click: None },
            children: Seq::empty(),
        }),
{
    element(Kind::Label)
}

/// An empty text field.
pub fn field<S>() -> (r: Object<S>)
    ensures
        r@ == (NodeView::<S> {
            kind: Kind::Field,
            attributes: AttributesView { text: None, placeholder: None, click: None },
            children: Seq::empty(),
        }),
{
    element(Kind::Field)
}

impl<S> Object<S> {
    /// The same element with its text set to `text`.
    pub fn text(self, text: String) -> (r: Object<S>)
        ensures
            r@ == (NodeView {
                attributes: AttributesView { text: Some(text@), ..self@.attributes },
                ..self@
            }),
    {
        let Object { kind, attributes, children } = self;
        let r = Object { kind, attributes: Attributes { text: Some(text), ..attributes }, children };
        assert(r@.children =~= self@.children);
        r
    }

    /// The same element with its placeholder set to `placeholder`.
    pub fn placeholder(self, placeholder: String) -> (r: Object<S>)
        ensures
            r@ == (NodeView {
                attributes: AttributesView {
                    placeholder: Some(placeholder@),
                    ..self@.attributes
                },
                ..self@
            }),
    {
        let Object { kind, attributes, children } = self;
        let r = Object {
            kind,
            attributes: Attributes { placeholder: Some(placeholder), ..attributes },
            children,
        };
        assert(r@.children =~= self@.children);
        r
    }

    /// The same element, sending `message` when it is clicked.
    pub fn click(self, message: S) -> (r: Object<S>)
        ensures
            r@ == (NodeView {
                attributes: AttributesView { click: Some(message), ..self@.attributes },
                ..self@
            }),
    {
        let Object { kind, attributes, children } = self;
        let r = Object {
            kind,
            attributes: Attributes { click: Some(message), ..attributes },
            children,
        };
        assert(r@.children =~= self@.children);
        r
    }
}

} // verus!
