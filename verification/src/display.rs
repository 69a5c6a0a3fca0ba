//! The rolling display buffer: streamed text chunks are appended and the
//! buffer keeps only its last `max_len` characters, so the overlay always
//! shows the newest text.  The channel plumbing and the send-rate pacing
//! live with the caller.

use vstd::prelude::*;

verus! {

/// Appends `input` to `buffer` and trims the front until at most
/// `max_len` characters remain: the buffer ends up holding the last
/// `max_len` characters of the concatenation, or all of them when they
/// fit.
pub fn bounded_append(buffer: &mut Vec<char>, input: &Vec<char>, max_len: usize)
    ensures
        ({
            let combined = old(buffer)@ + input@;
            if combined.len() <= max_len {
                final(buffer)@ == combined
            } else {
                final(buffer)@ == combined.skip(combined.len() - max_len)
            }
        }),
{
    let ghost combined = buffer@ + input@;
    let mut i: usize = 0;
    let n = input.len();
    while i < n
        invariant
            i <= n,
            n == input@.len(),
            buffer@ == old(buffer)@ + input@.take(i as int),
        decreases n - i,
    {
        buffer.push(input[i]);
        proof {
            assert(old(buffer)@ + input@.take(i as int + 1) =~= (old(buffer)@ + input@.take(
                i as int,
            )).push(input@[i as int]));
        }
        i = i + 1;
    }
    proof {
        assert(input@.take(n as int) =~= input@);
        assert(buffer@ =~= combined.skip(0));
    }
    while buffer.len() > max_len
        invariant
            buffer@ == combined.skip(combined.len() - buffer@.len()),
            buffer@.len() <= combined.len(),
            buffer@.len() >= max_len || buffer@ == combined,
        decreases buffer.len(),
    {
        let ghost k = combined.len() - buffer@.len();
        buffer.remove(0);
        proof {
            assert(buffer@ =~= combined.skip(k + 1));
        }
    }
    proof {
        if combined.len() <= max_len {
            assert(combined.skip(0) =~= combined);
        }
    }
}

} // verus!
