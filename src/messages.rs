use vstd::prelude::*;
use vstd::string::*;
use crate::node::Node;

verus! {

/// The body of a query answer when no node is registered.
pub const NO_ACTIVE_NODES: &'static str = "no active nodes in the network";

/// The body of the index page, which shows that the server runs.
pub const GREETING: &'static str = "Hello World!";

/// The character of a decimal digit.
pub open spec fn digit_char(d: nat) -> char {
    seq!['0', '1', '2', '3', '4', '5', '6', '7', '8', '9'][d as int]
}

/// The decimal form of `n`, without leading zeros.
pub open spec fn decimal(n: nat) -> Seq<char>
    decreases n,
{
    if n < 10 {
        seq![digit_char(n)]
    } else {
        decimal(n / 10).push(digit_char(n % 10))
    }
}

/// The text `<address>:<port>` that names a node.
pub open spec fn endpoint(address: Seq<char>, port: u16) -> Seq<char> {
    address + seq![':'] + decimal(port as nat)
}

/// Appends the decimal form of `n` to `s`.
fn push_decimal(s: &mut String, n: u16)
    ensures
        final(s)@ == old(s)@ + decimal(n as nat),
    decreases n,
{
    if n >= 10 {
        push_decimal(s, n / 10);
    }
    let d = n % 10;
    let digits: [&str; 10] = ["0", "1", "2", "3", "4", "5", "6", "7", "8", "9"];
    proof {
        reveal_strlit("0");
        reveal_strlit("1");
        reveal_strlit("2");
        reveal_strlit("3");
        reveal_strlit("4");
        reveal_strlit("5");
        reveal_strlit("6");
        reveal_strlit("7");
        reveal_strlit("8");
        reveal_strlit("9");
    }
    let digit = digits[d as usize];
    assert(digit@ =~= seq![digit_char(d as nat)]);
    s.append(digit);
    assert(s@ =~= old(s)@ + decimal(n as nat));
}

/// `prefix`, then the node's endpoint, then ` successfully`.
fn endpoint_message(prefix: &str, node: &Node) -> (r: String)
    ensures
        r@ == prefix@ + endpoint(node.address@, node.port) + " successfully"@,
{
    let mut s = String::from_str(prefix);
    s.append(node.address.as_str());
    s.append(":");
    push_decimal(&mut s, node.port);
    s.append(" successfully");
    proof {
        reveal_strlit(":");
    }
    assert(s@ =~= prefix@ + endpoint(node.address@, node.port) + " successfully"@);
    s
}

/// The answer to a registration: `register node <address>:<port> successfully`.
pub fn register_message(node: &Node) -> (r: String)
    ensures
        r@ == "register node "@ + endpoint(node.address@, node.port) + " successfully"@,
{
    endpoint_message("register node ", node)
}

/// The answer to a deregistration:
/// `deregister node <address>:<port> successfully`.
pub fn deregister_message(node: &Node) -> (r: String)
    ensures
        r@ == "deregister node "@ + endpoint(node.address@, node.port) + " successfully"@,
{
    endpoint_message("deregister node ", node)
}

} // verus!
