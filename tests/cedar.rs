use cedar::diff::{diff, Change, Operation};
use cedar::dom::{button, field, label, stack, Attributes, Kind, Object};
use cedar::live::{create, patch, Vertex, Widget};
use cedar::program::program;
use cedar::stream::Stream;

#[derive(Clone, Debug, PartialEq)]
enum Message {
    Increment,
    Decrement,
    NewContent(String),
}

/// A widget that shows nothing: the tests look at the live tree itself.
struct Probe;

impl Widget<Message> for Probe {
    fn create(_kind: Kind, _stream: Stream<Message>) -> Self {
        Probe
    }

    fn update(&self, _attributes: &Attributes<Message>) {}

    fn add(&self, _child: &Self) {}

    fn remove(&self, _child: &Self) {}
}

fn counter_update(model: i32, message: Message) -> i32 {
    match message {
        Message::Increment => model + 1,
        Message::Decrement => model - 1,
        Message::NewContent(_) => model,
    }
}

fn counter_view(model: &i32) -> Object<Message> {
    stack(vec![
        button("+".to_string()).click(Message::Increment),
        label().text(model.to_string()),
        button("-".to_string()).click(Message::Decrement),
    ])
}

fn field_update(_model: String, message: Message) -> String {
    match message {
        Message::NewContent(content) => content,
        _ => String::new(),
    }
}

fn field_view(model: &String) -> Object<Message> {
    stack(vec![
        field().placeholder("Text to reverse".to_string()),
        label().text(model.clone()),
    ])
}

fn labels(texts: &[&str]) -> Object<Message> {
    stack(texts.iter().map(|t| label().text(t.to_string())).collect())
}

fn same_attributes(a: &Attributes<Message>, b: &Attributes<Message>) -> bool {
    a.text == b.text && a.placeholder == b.placeholder && a.click == b.click
}

fn same_shape(a: &Vertex<Message, Probe>, b: &Vertex<Message, Probe>) -> bool {
    a.kind == b.kind
        && same_attributes(&a.attributes, &b.attributes)
        && a.children.len() == b.children.len()
        && a.children.iter().zip(b.children.iter()).all(|(x, y)| same_shape(x, y))
}

fn text_of(change: &Change<Message>) -> Option<String> {
    match &change.op {
        Operation::Update(a) => a.text.clone(),
        _ => None,
    }
}

#[test]
fn diff_of_a_tree_with_itself_is_empty() {
    let a = counter_view(&3);
    let b = counter_view(&3);
    assert!(diff(&a, &b).is_empty());
    let nested: Object<Message> = stack(vec![stack(vec![label().text("x".to_string())]), field()]);
    let again: Object<Message> = stack(vec![stack(vec![label().text("x".to_string())]), field()]);
    assert!(diff(&nested, &again).is_empty());
}

#[test]
fn diff_of_one_changed_attribute_is_one_update() {
    let a: Object<Message> = stack(vec![label(), stack(vec![label(), button("ok".to_string())])]);
    let b: Object<Message> = stack(vec![label(), stack(vec![label(), button("go".to_string())])]);
    let changes = diff(&a, &b);
    assert_eq!(changes.len(), 1);
    assert_eq!(changes[0].path, vec![1, 1]);
    assert_eq!(text_of(&changes[0]), Some("go".to_string()));
}

#[test]
fn patching_with_the_diff_gives_the_new_tree() {
    let stream = Stream::new();
    let pairs = vec![
        (counter_view(&0), counter_view(&7)),
        (labels(&["a", "b"]), labels(&["a", "c", "d", "e"])),
        (labels(&["a", "b", "c", "d"]), labels(&["x"])),
        (stack(vec![label(), field()]), stack(vec![button("b".to_string()), field().placeholder("p".to_string())])),
        (label().text("top".to_string()), stack(vec![label()])),
    ];
    for (a, b) in pairs {
        let changes = diff(&a, &b);
        let mut tree: Vertex<Message, Probe> = create(&stream, a);
        for change in changes {
            patch(&stream, &mut tree, change);
        }
        let direct: Vertex<Message, Probe> = create(&stream, b);
        assert!(same_shape(&tree, &direct));
    }
}

#[test]
fn stream_keeps_the_order_of_one_producer() {
    let stream: Stream<Message> = Stream::new();
    let producer = stream.clone();
    producer.push(Message::Increment);
    producer.push(Message::Decrement);
    producer.push(Message::NewContent("m3".to_string()));
    assert_eq!(stream.pop(), Some(Message::Increment));
    assert_eq!(stream.pop(), Some(Message::Decrement));
    assert_eq!(stream.pop(), Some(Message::NewContent("m3".to_string())));
    assert_eq!(stream.try_pop(), None);
}

#[test]
fn stream_delivers_each_message_of_two_producers_once() {
    let stream: Stream<Message> = Stream::new();
    let first = stream.clone();
    let second = stream.clone();
    first.push(Message::Increment);
    second.push(Message::Decrement);
    let mut seen = vec![stream.pop().unwrap(), stream.pop().unwrap()];
    assert_eq!(stream.try_pop(), None);
    seen.sort_by_key(|m| format!("{:?}", m));
    assert_eq!(seen, vec![Message::Decrement, Message::Increment]);
}

#[test]
fn counter_increment_updates_the_label() {
    assert_eq!(counter_update(0, Message::Increment), 1);
    let changes = diff(&counter_view(&0), &counter_view(&1));
    assert_eq!(changes.len(), 1);
    assert_eq!(changes[0].path, vec![1]);
    assert_eq!(text_of(&changes[0]), Some("1".to_string()));
}

#[test]
fn counter_program_runs_a_cycle() {
    let p = program::<i32, Message, Probe, _, _>(0, counter_update, counter_view);
    assert_eq!(p.tree.children.len(), 3);
    assert_eq!(p.tree.children[1].attributes.text, Some("0".to_string()));
    let p = p.step(Message::Increment);
    assert_eq!(p.model, 1);
    assert_eq!(p.tree.children[1].attributes.text, Some("1".to_string()));
    let p = p.step(Message::Decrement).step(Message::Decrement);
    assert_eq!(p.model, -1);
    assert_eq!(p.tree.children[1].attributes.text, Some("-1".to_string()));
}

#[test]
fn text_field_content_updates_the_label() {
    let model = field_update("--".to_string(), Message::NewContent("cba".to_string()));
    assert_eq!(model, "cba");
    let changes = diff(&label().text("--".to_string()), &label().text(model.clone()));
    assert_eq!(changes.len(), 1);
    assert!(changes[0].path.is_empty());
    assert_eq!(text_of(&changes[0]), Some("cba".to_string()));
    let p = program::<String, Message, Probe, _, _>("--".to_string(), field_update, field_view);
    let p = p.step(Message::NewContent("cba".to_string()));
    assert_eq!(p.model, "cba");
    assert_eq!(p.tree.children[1].attributes.text, Some("cba".to_string()));
    assert_eq!(p.tree.children[0].attributes.placeholder, Some("Text to reverse".to_string()));
}

#[test]
fn two_trailing_children_give_two_inserts() {
    let changes = diff(&labels(&["a"]), &labels(&["a", "b", "c"]));
    assert_eq!(changes.len(), 2);
    assert_eq!(changes[0].path, vec![1]);
    assert_eq!(changes[1].path, vec![2]);
    match (&changes[0].op, &changes[1].op) {
        (Operation::Insert(b), Operation::Insert(c)) => {
            assert_eq!(b.attributes.text, Some("b".to_string()));
            assert_eq!(c.attributes.text, Some("c".to_string()));
        }
        _ => panic!("expected two insertions"),
    }
}

#[test]
fn one_fewer_child_gives_one_remove() {
    let changes = diff(&labels(&["a", "b"]), &labels(&["a"]));
    assert_eq!(changes.len(), 1);
    assert_eq!(changes[0].path, vec![1]);
    assert!(matches!(changes[0].op, Operation::Remove));
}

#[test]
fn removals_go_left_to_right_at_the_first_extra_index() {
    let changes = diff(&labels(&["a", "b", "c"]), &labels(&["a"]));
    let paths: Vec<Vec<usize>> = changes.iter().map(|c| c.path.clone()).collect();
    assert_eq!(paths, vec![vec![1], vec![1]]);
    assert!(changes.iter().all(|c| matches!(c.op, Operation::Remove)));
    let stream = Stream::new();
    let mut tree: Vertex<Message, Probe> = create(&stream, labels(&["a", "b", "c"]));
    for change in changes {
        patch(&stream, &mut tree, change);
    }
    assert_eq!(tree.children.len(), 1);
    assert_eq!(tree.children[0].attributes.text, Some("a".to_string()));
}

#[test]
fn a_changed_kind_is_replaced_whole() {
    let a: Object<Message> = stack(vec![label(), label()]);
    let b: Object<Message> = stack(vec![label(), field()]);
    let changes = diff(&a, &b);
    assert_eq!(changes.len(), 1);
    assert_eq!(changes[0].path, vec![1]);
    assert!(matches!(&changes[0].op, Operation::Replace(n) if n.kind == Kind::Field));
    let root = diff(&label::<Message>(), &field());
    assert_eq!(root.len(), 1);
    assert!(root[0].path.is_empty());
}

#[test]
fn changes_come_in_pre_order() {
    let a: Object<Message> = stack(vec![stack(vec![label().text("x".to_string())]), label().text("y".to_string())]);
    let b: Object<Message> = stack(vec![stack(vec![label().text("x2".to_string())]), label().text("y2".to_string())]).text("root".to_string());
    let paths: Vec<Vec<usize>> = diff(&a, &b).iter().map(|c| c.path.clone()).collect();
    assert_eq!(paths, vec![vec![], vec![0, 0], vec![1]]);
}

#[test]
fn builders_set_attributes() {
    let b = button("+".to_string()).click(Message::Increment);
    assert_eq!(b.kind, Kind::Button);
    assert_eq!(b.attributes.text, Some("+".to_string()));
    assert_eq!(b.attributes.click, Some(Message::Increment));
    let f = field::<Message>().placeholder("p".to_string());
    assert_eq!(f.kind, Kind::Field);
    assert_eq!(f.attributes.placeholder, Some("p".to_string()));
    assert_eq!(f.attributes.text, None);
    assert!(f.attributes.same(&f.copy().attributes));
    assert!(!f.attributes.same(&field::<Message>().attributes));
}


#[test]
fn streams_of_any_message_type_can_be_made() {
    let chars: Stream<char> = Stream::new();
    chars.push('x');
    assert_eq!(chars.pop(), Some('x'));
    static N: u32 = 7;
    let refs: Stream<&'static u32> = Stream::new();
    refs.push(&N);
    assert_eq!(refs.try_pop(), Some(&7));
    let boxes: Stream<Box<u64>> = Stream::new();
    boxes.push(Box::new(9));
    assert_eq!(boxes.pop(), Some(Box::new(9)));
    assert_eq!(boxes.try_pop(), None);
    let units: Stream<()> = Stream::new();
    units.push(());
    assert_eq!(units.pop(), Some(()));
}

#[test]
fn nested_trailing_children_are_inserted_under_their_parent() {
    let a: Object<Message> = stack(vec![label(), labels(&["a"])]);
    let b: Object<Message> = stack(vec![label(), labels(&["a", "b", "c"])]);
    let changes = diff(&a, &b);
    let paths: Vec<Vec<usize>> = changes.iter().map(|c| c.path.clone()).collect();
    assert_eq!(paths, vec![vec![1, 1], vec![1, 2]]);
    assert!(changes.iter().all(|c| matches!(c.op, Operation::Insert(_))));
}
