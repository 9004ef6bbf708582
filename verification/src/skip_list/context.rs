//! Visitors of a search through the skip list, and one that writes down
//! what it visits.

use vstd::prelude::*;
use vstd::string::StringExecFns;

use super::list::SkipList;
use super::node::{BaseNode, IndexNode};

verus! {

/// The character of decimal digit `d`.
pub open spec fn digit_char(d: nat) -> char {
    if d == 0 {
        '0'
    } else if d == 1 {
        '1'
    } else if d == 2 {
        '2'
    } else if d == 3 {
        '3'
    } else if d == 4 {
        '4'
    } else if d == 5 {
        '5'
    } else if d == 6 {
        '6'
    } else if d == 7 {
        '7'
    } else if d == 8 {
        '8'
    } else {
        '9'
    }
}

/// The decimal digits of `n`, most significant first.
pub open spec fn udecimal(n: nat) -> Seq<char>
    decreases n,
{
    if n < 10 {
        seq![digit_char(n)]
    } else {
        udecimal(n / 10).push(digit_char(n % 10))
    }
}

/// `n` written in decimal, with a leading `-` when negative.
pub open spec fn decimal(n: int) -> Seq<char> {
    if n < 0 {
        seq!['-'] + udecimal((-n) as nat)
    } else {
        udecimal(n as nat)
    }
}

/// `String::push`: appends `c`.
#[verifier::external_body]
fn push_char(s: &mut String, c: char)
    ensures
        final(s)@ == old(s)@.push(c),
{
    s.push(c);
}

fn digit(d: u64) -> (c: char)
    requires
        d < 10,
    ensures
        c == digit_char(d as nat),
{
    if d == 0 {
        '0'
    } else if d == 1 {
        '1'
    } else if d == 2 {
        '2'
    } else if d == 3 {
        '3'
    } else if d == 4 {
        '4'
    } else if d == 5 {
        '5'
    } else if d == 6 {
        '6'
    } else if d == 7 {
        '7'
    } else if d == 8 {
        '8'
    } else {
        '9'
    }
}

/// Appends the decimal digits of `m`.
fn push_udecimal(out: &mut String, m: u64)
    ensures
        final(out)@ == old(out)@ + udecimal(m as nat),
    decreases m,
{
    if m >= 10 {
        push_udecimal(out, m / 10);
    }
    push_char(out, digit(m % 10));
    assert(out@ =~= old(out)@ + udecimal(m as nat));
}

/// Appends `n` in decimal.
fn push_decimal(out: &mut String, n: i64)
    ensures
        final(out)@ == old(out)@ + decimal(n as int),
{
    if n < 0 {
        push_char(out, '-');
        let m: u64 = if n == i64::MIN {
            9223372036854775808u64
        } else {
            (-n) as u64
        };
        push_udecimal(out, m);
        assert(out@ =~= old(out)@ + decimal(n as int));
    } else {
        push_udecimal(out, n as u64);
    }
}

/// What a search for a key does at the nodes it passes.
pub trait Context<V> {
    /// The key searched for.
    spec fn key(&self) -> i64;

    fn get_key(&self) -> (r: i64)
        ensures
            r == self.key(),
    ;

    /// Whether the search goes down at index node `node`: its right neighbour,
    /// if any, holds a larger key than the one searched for.
    fn is_index_match(&self, list: &SkipList<V>, node: usize) -> (r: bool)
        requires
            list.wf(),
            node < list.index_len(),
        ensures
            r == match list.index_at(node as int).right {
                Some(right) => list.index_at(right as int).key > self.key(),
                None => true,
            },
    {
        match list.get_index_node(node).get_right_node() {
            Some(right) => list.get_index_node(right).get_key() > self.get_key(),
            None => true,
        }
    }

    /// Whether base node `node` holds the key searched for.
    fn is_base_node_match(&self, node: &BaseNode<V>) -> (r: bool)
        ensures
            r == (node.key == self.key()),
    {
        self.get_key() == node.get_key()
    }

    fn visit_index(&mut self, node: &IndexNode);

    fn visit_matched_base(&mut self, node: &BaseNode<V>);
}

/// A context that writes a line for each node it visits.
pub struct DebugContext {
    key: i64,
    output: String,
}

impl DebugContext {
    /// The lines written so far.
    pub closed spec fn spec_output(&self) -> Seq<char> {
        self.output@
    }

    /// A context searching for `key`, with nothing written yet.
    pub fn new(key: i64) -> (r: DebugContext)
        ensures
            r.key() == key,
            r.spec_output() == Seq::<char>::empty(),
    {
        DebugContext { key, output: String::new() }
    }

    /// The lines written so far.
    pub fn output(&self) -> (r: &String)
        ensures
            r@ == self.spec_output(),
    {
        &self.output
    }
}

impl Context<i64> for DebugContext {
    closed spec fn key(&self) -> i64 {
        self.key
    }

    fn get_key(&self) -> (r: i64) {
        self.key
    }

    /// Writes `visitor index key:K` and a newline.
    fn visit_index(&mut self, node: &IndexNode)
        ensures
            final(self).spec_output() == old(self).spec_output() + "visitor index key:"@ + decimal(
                node.key as int,
            ) + "\n"@,
            final(self).key() == old(self).key(),
    {
        self.output.append("visitor index key:");
        push_decimal(&mut self.output, node.get_key());
        self.output.append("\n");
    }

    /// Writes `visitor base key:K,value:V` and a newline.
    fn visit_matched_base(&mut self, node: &BaseNode<i64>)
        ensures
            final(self).spec_output() == old(self).spec_output() + "visitor base key:"@ + decimal(
                node.key as int,
            ) + ",value:"@ + decimal(node.value as int) + "\n"@,
            final(self).key() == old(self).key(),
    {
        self.output.append("visitor base key:");
        push_decimal(&mut self.output, node.get_key());
        self.output.append(",value:");
        push_decimal(&mut self.output, node.get_value());
        self.output.append("\n");
    }
}

} // verus!
