//! Signals shared between the threads of a server process.

use vstd::prelude::*;

verus! {

/// A control signal broadcast over the signal queue; each thread observes it
/// on its next poll iteration and terminates.
#[derive(Clone, Copy, PartialEq, Eq, Structural, Debug)]
pub enum Message {
    /// Shut the thread down.
    Shutdown,
}

/// The bytes `PING\r\n`: the one request of the ping protocol.
pub open spec fn lit_ping() -> Seq<u8> {
    seq![80u8, 73u8, 78u8, 71u8, 13u8, 10u8]
}

/// The bytes `PONG\r\n`: its reply.
pub open spec fn lit_pong() -> Seq<u8> {
    seq![80u8, 79u8, 78u8, 71u8, 13u8, 10u8]
}

/// Answer one buffered ping-protocol read: too little data (or no final
/// CRLF) is incomplete, exactly `PING\r\n` earns `PONG\r\n`, and anything
/// else is a protocol error that closes the connection.
pub fn ping_reply(buf: &[u8]) -> (r: Result<Option<Vec<u8>>, ()>)
    ensures
        ({
            let incomplete = buf@.len() < 6 || buf@[buf@.len() - 2] != 13 || buf@[buf@.len() - 1]
                != 10;
            match r {
                Result::Ok(Option::None) => incomplete,
                Result::Ok(Option::Some(pong)) => !incomplete && buf@ == lit_ping() && pong@
                    == lit_pong(),
                Result::Ok(_) => false,
                Result::Err(()) => !incomplete && buf@ != lit_ping(),
            }
        }),
{
    let n = buf.len();
    if n < 6 || buf[n - 2] != 13 || buf[n - 1] != 10 {
        return Ok(None);
    }
    if n == 6 && buf[0] == 80 && buf[1] == 73 && buf[2] == 78 && buf[3] == 71 {
        proof {
            assert(buf@ =~= lit_ping());
        }
        let mut pong: Vec<u8> = Vec::new();
        pong.push(80);
        pong.push(79);
        pong.push(78);
        pong.push(71);
        pong.push(13);
        pong.push(10);
        proof {
            assert(pong@ =~= lit_pong());
        }
        Ok(Some(pong))
    } else {
        proof {
            if buf@ == lit_ping() {
                assert(buf@.len() == 6);
                assert(buf@[0] == 80 && buf@[1] == 73 && buf@[2] == 78 && buf@[3] == 71);
            }
        }
        Err(())
    }
}

} // verus!
