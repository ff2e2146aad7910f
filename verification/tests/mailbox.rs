use domafic::dom::{attribute_keys_unique, AttributeValue, DomNode, KeyValue};
use domafic::keys::Keys;
use domafic::mailbox::Mailbox;

#[test]
fn the_first_delivery_goes_through_and_the_others_wait() {
    let mut mailbox: Mailbox<&str> = Mailbox::new();
    assert!(!mailbox.is_busy());
    assert_eq!(mailbox.waiting(), 0);

    let first = mailbox.deliver("a", Keys::new().push(1)).unwrap();
    assert_eq!(first.message, "a");
    assert!(first.keys == Keys::new().push(1));
    assert!(mailbox.is_busy());

    assert!(mailbox.deliver("b", Keys::new()).is_none());
    assert!(mailbox.deliver("c", Keys::new().push(3)).is_none());
    assert_eq!(mailbox.waiting(), 2);

    let second = mailbox.finish().unwrap();
    assert_eq!(second.message, "b");
    assert!(mailbox.is_busy());
    assert!(mailbox.deliver("d", Keys::new()).is_none());

    let third = mailbox.finish().unwrap();
    assert_eq!(third.message, "c");
    assert!(third.keys == Keys::new().push(3));
    assert_eq!(mailbox.finish().unwrap().message, "d");
    assert!(mailbox.is_busy());
    assert!(mailbox.finish().is_none());
    assert!(!mailbox.is_busy());
    assert!(mailbox.finish().is_none());

    assert_eq!(mailbox.deliver("e", Keys::new()).unwrap().message, "e");
}

#[test]
fn an_occupied_mailbox_lets_nothing_through_until_the_cycle_ends() {
    let mut mailbox: Mailbox<u8> = Mailbox::occupied();
    assert!(mailbox.is_busy());
    assert!(mailbox.deliver(1, Keys::new()).is_none());
    assert_eq!(mailbox.finish().unwrap().message, 1);
    assert!(mailbox.finish().is_none());
    assert!(!mailbox.is_busy());
}

fn attribute(key: &str, value: &str) -> KeyValue {
    KeyValue(key.to_string(), AttributeValue::Str(value.to_string()))
}

#[test]
fn a_node_is_well_formed_when_no_key_occurs_twice_on_a_node() {
    assert!(attribute_keys_unique(&vec![]));
    assert!(attribute_keys_unique(&vec![attribute("a", "1"), attribute("b", "1")]));
    assert!(!attribute_keys_unique(&vec![attribute("a", "1"), attribute("b", "1"), attribute("a", "2")]));
    assert!(!attribute_keys_unique(&vec![attribute("a", "1"), attribute("a", "1")]));

    let value = |s: &str| AttributeValue::Str(s.to_string());
    let good = DomNode::element("div")
        .with_attribute("id", value("x"))
        .with_attribute("class", value("y"))
        .with_child(DomNode::element("p").with_attribute("id", value("x")))
        .with_child(DomNode::text("t"));
    assert!(good.is_well_formed());
    assert!(!good.with_attribute("id", AttributeValue::Bool(true)).is_well_formed());

    let bad_below = DomNode::element("div").with_child(
        DomNode::element("p").with_child(
            DomNode::element("i").with_attribute("k", value("1")).with_attribute("k", value("2")),
        ),
    );
    assert!(!bad_below.is_well_formed());
}
