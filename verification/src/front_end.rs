//! Connection handling without the sockets.
//!
//! A front end reads chunks from a client, cuts them into request frames,
//! hands the frames to the engine and sends the responses. What is decided
//! along the way, and what is counted, stands here; the reading and sending is
//! up to the embedding program.

use vstd::prelude::*;

use crate::broker_engine::groups;

pub mod acceptor;
pub mod connection;
pub mod diagnostics;
pub mod frames;

verus! {

/// The port that is listened on and, unless told otherwise, advertised.
pub const LISTEN_PORT: i32 = 9092;

/// Idle polls between two heartbeats.
pub const HEARTBEAT_POLLS: u64 = 400;

/// Whether every byte is a decimal digit.
pub open spec fn all_digits(text: Seq<u8>) -> bool {
    forall|i: int| 0 <= i < text.len() ==> 48 <= #[trigger] text[i] <= 57
}

/// The number that decimal digits spell.
pub open spec fn decimal_value(text: Seq<u8>) -> nat
    decreases text.len(),
{
    if text.len() == 0 {
        0
    } else {
        (decimal_value(text.drop_last()) * 10 + (text.last() - 48)) as nat
    }
}

/// The port that a text names; one that names none stands for the port that
/// is listened on.
pub open spec fn port_of(text: Seq<u8>) -> i32 {
    if all_digits(text) && 0 < decimal_value(text) <= 65535 {
        decimal_value(text) as i32
    } else {
        LISTEN_PORT
    }
}

/// Digits only ever make a number larger.
proof fn lemma_decimal_grows(text: Seq<u8>, n: int)
    requires
        0 <= n <= text.len(),
        all_digits(text),
    ensures
        decimal_value(text.take(n)) <= decimal_value(text),
    decreases text.len(),
{
    if n < text.len() {
        assert forall|i: int| 0 <= i < text.drop_last().len() implies 48 <= #[trigger] text.drop_last()[i] <= 57 by {
            assert(text[i] == text.drop_last()[i]);
        }
        lemma_decimal_grows(text.drop_last(), n);
        assert(text.drop_last().take(n) =~= text.take(n));
        assert(48 <= text[text.len() - 1]);
    } else {
        assert(text.take(n) =~= text);
    }
}

/// The port that a text names.
pub fn decimal_port(text: &[u8]) -> (r: i32)
    ensures
        r == port_of(text@),
{
    let mut value: i32 = 0;
    let mut index: usize = 0;
    while index < text.len()
        invariant
            index <= text.len(),
            all_digits(text@.take(index as int)),
            value == decimal_value(text@.take(index as int)),
            0 <= value <= 65535,
        decreases text.len() - index,
    {
        let digit: u8 = text[index];
        proof {
            assert(text@.take(index + 1).drop_last() =~= text@.take(index as int));
        }
        if digit < 48 || digit > 57 {
            proof {
                assert(text@[index as int] == digit);
            }
            return LISTEN_PORT;
        }
        proof {
            assert forall|i: int| 0 <= i < index + 1 implies 48 <= #[trigger] text@.take(index + 1)[i] <= 57 by {
                if i < index {
                    assert(text@.take(index as int)[i] == text@[i]);
                }
            }
        }
        value = value * 10 + (digit - 48) as i32;
        index += 1;
        if value > 65535 {
            proof {
                if all_digits(text@) {
                    lemma_decimal_grows(text@, index as int);
                }
            }
            return LISTEN_PORT;
        }
    }
    proof {
        assert(text@.take(index as int) =~= text@);
    }
    if value > 0 {
        value
    } else {
        LISTEN_PORT
    }
}

/// Decimal digits spell the number they were made from.
pub proof fn law_decimal_spells_its_number(value: nat)
    ensures
        all_digits(groups::decimal(value)),
        groups::decimal(value).len() > 0,
        decimal_value(groups::decimal(value)) == value,
    decreases value,
{
    let text = groups::decimal(value);
    if value < 10 {
        assert(text.drop_last() =~= seq![]);
        assert(decimal_value(text.drop_last()) == 0);
    } else {
        law_decimal_spells_its_number(value / 10);
        assert(text.drop_last() =~= groups::decimal(value / 10));
        assert forall|i: int| 0 <= i < text.len() implies 48 <= #[trigger] text[i] <= 57 by {
            if i < text.len() - 1 {
                assert(text[i] == groups::decimal(value / 10)[i]);
            }
        }
    }
}

/// A text that spells a port stands for that port, and any other text for the
/// port that is listened on.
pub proof fn law_port_is_read_back(port: u16, text: Seq<u8>)
    ensures
        port > 0 ==> port_of(groups::decimal(port as nat)) == port,
        !all_digits(text) ==> port_of(text) == LISTEN_PORT,
{
    law_decimal_spells_its_number(port as nat);
}

} // verus!
