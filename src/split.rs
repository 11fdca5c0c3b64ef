//! Copying one stream to two sinks.
use vstd::prelude::*;

verus! {

/// Copies all of `input` to both `stdout` and `stderr`.
pub fn stream_split(input: &[u8], stdout: &mut Vec<u8>, stderr: &mut Vec<u8>)
    ensures
        final(stdout)@ == old(stdout)@ + input@,
        final(stderr)@ == old(stderr)@ + input@,
{
    let ghost out0 = stdout@;
    let ghost err0 = stderr@;
    let mut i: usize = 0;
    while i < input.len()
        invariant
            i <= input@.len(),
            stdout@ == out0 + input@.take(i as int),
            stderr@ == err0 + input@.take(i as int),
        decreases input@.len() - i,
    {
        stdout.push(input[i]);
        stderr.push(input[i]);
        i = i + 1;
        assert(input@.take(i as int) == input@.take(i - 1).push(input@[i - 1]));
    }
    assert(input@.take(i as int) == input@);
}

} // verus!
