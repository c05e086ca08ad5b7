//! A list of unsigned values with the interface of the classic
//! doubly-linked container: append at the tail, remove the first match,
//! render front to back.  The chain is singly owned; the backward
//! neighbour of the classic layout is the chain order itself, which is
//! all the operations observe.

use vstd::prelude::*;
use vstd::string::StringExecFns;
use crate::decimal::{decimal_string, spec_decimal, spec_lines, lemma_spec_lines_snoc};
use crate::linked_list::remove_first_spec;

verus! {

struct Node {
    value: u64,
    next: Option<Box<Node>>,
}

/// An owned chain of values with append, first-match removal and
/// line-by-line rendering.
pub struct DoublyLinkedList {
    head: Option<Box<Node>>,
}

impl Node {
    spec fn optional_as_seq(node_opt: Option<Box<Node>>) -> Seq<u64>
        decreases node_opt,
    {
        match node_opt {
            None => Seq::empty(),
            Some(node) => seq![node.value] + Node::optional_as_seq(node.next),
        }
    }

    fn push_back(node: &mut Option<Box<Node>>, value: u64)
        ensures
            Node::optional_as_seq(*final(node)) == Node::optional_as_seq(*old(node)).push(value),
        decreases *old(node),
    {
        match node.take() {
            None => {
                *node = Some(Box::new(Node { value, next: None }));
                assert((*node)->Some_0.value == value);
                assert(Node::optional_as_seq(None) =~= Seq::<u64>::empty());
                assert(Node::optional_as_seq(*node) =~= Seq::<u64>::empty().push(value));
            },
            Some(mut boxed) => {
                let ghost tail = Node::optional_as_seq(boxed.next);
                let ghost head = boxed.value;
                Node::push_back(&mut boxed.next, value);
                assert(seq![head] + tail.push(value) =~= (seq![head] + tail).push(value));
                *node = Some(boxed);
            },
        }
    }

    fn remove_first(node: &mut Option<Box<Node>>, value: u64)
        ensures
            Node::optional_as_seq(*final(node)) == remove_first_spec(
                Node::optional_as_seq(*old(node)),
                value,
            ),
        decreases *old(node),
    {
        match node.take() {
            None => {},
            Some(mut boxed) => {
                let ghost whole = Node::optional_as_seq(Some(boxed));
                if boxed.value == value {
                    let Node { value: _, next } = *boxed;
                    *node = next;
                    assert(whole.drop_first() =~= Node::optional_as_seq(*node));
                } else {
                    let ghost head = boxed.value;
                    let ghost tail = Node::optional_as_seq(boxed.next);
                    Node::remove_first(&mut boxed.next, value);
                    assert(whole.drop_first() =~= tail);
                    assert(whole[0] == head);
                    *node = Some(boxed);
                    assert(Node::optional_as_seq(*node) =~= seq![head] + remove_first_spec(
                        tail,
                        value,
                    ));
                }
            },
        }
    }

    fn collect(node: &Option<Box<Node>>, out: &mut Vec<u64>)
        ensures
            final(out)@ == old(out)@ + Node::optional_as_seq(*node),
        decreases *node,
    {
        match node {
            None => {
                assert(out@ =~= out@ + Seq::<u64>::empty());
            },
            Some(n) => {
                out.push(n.value);
                Node::collect(&n.next, out);
                assert(out@ =~= old(out)@ + Node::optional_as_seq(*node));
            },
        }
    }
}

impl View for DoublyLinkedList {
    type V = Seq<u64>;

    closed spec fn view(&self) -> Seq<u64> {
        Node::optional_as_seq(self.head)
    }
}

impl DoublyLinkedList {
    /// The empty list.
    pub fn new() -> (l: DoublyLinkedList)
        ensures
            l@ == Seq::<u64>::empty(),
    {
        DoublyLinkedList { head: None }
    }

    /// Append `value` at the end of the list.
    pub fn add(&mut self, value: u64)
        ensures
            final(self)@ == old(self)@.push(value),
    {
        Node::push_back(&mut self.head, value);
    }

    /// Remove the first element equal to `value`; a value that does not
    /// occur leaves the list unchanged.
    pub fn remove(&mut self, value: u64)
        ensures
            final(self)@ == remove_first_spec(old(self)@, value),
    {
        Node::remove_first(&mut self.head, value);
    }

    /// The list's values, front to back.
    pub fn to_vector(&self) -> (v: Vec<u64>)
        ensures
            v@ == self@,
    {
        let mut v: Vec<u64> = Vec::new();
        Node::collect(&self.head, &mut v);
        assert(v@ =~= self@);
        v
    }

    /// The text the list prints: each value's decimal digits on a line
    /// of its own, front to back.
    pub fn print_to_writer(&self) -> (out: String)
        ensures
            out@ == spec_lines(self@),
    {
        let v = self.to_vector();
        let mut out = String::new();
        let mut i: usize = 0;
        proof {
            assert(v@.take(0) =~= Seq::<u64>::empty());
        }
        while i < v.len()
            invariant
                v@ == self@,
                i <= v@.len(),
                out@ == spec_lines(v@.take(i as int)),
            decreases v@.len() - i,
        {
            let line = decimal_string(v[i]);
            out.append(line.as_str());
            out.append("\n");
            proof {
                reveal_strlit("\n");
                assert("\n"@ =~= seq!['\n']);
                lemma_spec_lines_snoc(v@, i as int);
            }
            i += 1;
        }
        proof {
            assert(v@.take(v@.len() as int) =~= v@);
        }
        out
    }
}

} // verus!
