use vstd::prelude::*;
use vstd::string::*;

verus! {

/// The comment that credits the author of a shader played by the radio.
pub open spec fn credit_comment(name: Seq<char>) -> Seq<char> {
    seq!['\n', '/', '*', '*', '*', '*', '\n', 'R', 'a', 'd', 'i', 'o', ' ', 'b', 'o', 'n', 'z', 'o', '\n', '\n', 'C', 'r', 'e', 'd', 'i', 't', ':', ' ', '\n', ' ']
        + name + seq![' ', '\n', '*', '*', '*', '*', '/', '\n']
}

/// `k` is the position of the first newline of `s`.
pub open spec fn is_first_newline(s: Seq<char>, k: int) -> bool {
    &&& 0 <= k < s.len()
    &&& s[k] == '\n'
    &&& forall|j: int| 0 <= j < k ==> s[j] != '\n'
}

/// The source with the credit comment right after its first line.
pub open spec fn credited(source: Seq<char>, name: Seq<char>, k: int) -> Seq<char> {
    source.subrange(0, k + 1) + credit_comment(name) + source.subrange(k + 1, source.len() as int)
}

/// The comment that credits `name`.
pub fn credential_header(name: &str) -> (r: String)
    ensures
        r@ == credit_comment(name@),
{
    let head = "\n/****\nRadio bonzo\n\nCredit: \n ";
    let tail = " \n****/\n";
    proof {
        reveal_strlit("\n/****\nRadio bonzo\n\nCredit: \n ");
        reveal_strlit(" \n****/\n");
    }
    let mut r = head.to_owned();
    r.append(name);
    r.append(tail);
    assert(r@ =~= credit_comment(name@));
    r
}

/// The shader source with the credit of `filename` inserted after its
/// first line (the first line is the `#version` directive, which must
/// stay first).
pub fn credited_source(contents: &str, filename: &str) -> (r: String)
    requires
        contents@.contains('\n'),
    ensures
        exists|k: int| is_first_newline(contents@, k) && r@ == credited(contents@, filename@, k),
{
    let n = contents.unicode_len();
    let mut k: usize = 0;
    while contents.get_char(k) != '\n'
        invariant
            n == contents@.len(),
            k < n,
            contents@.contains('\n'),
            forall|j: int| 0 <= j < k ==> contents@[j] != '\n',
        decreases n - k,
    {
        if k + 1 >= n {
            assert(false) by {
                let w = choose|w: int| 0 <= w < contents@.len() && contents@[w] == '\n';
            }
        }
        k = k + 1;
    }
    let mut r = contents.substring_char(0, k + 1).to_owned();
    let header = credential_header(filename);
    r.append(header.as_str());
    r.append(contents.substring_char(k + 1, n));
    assert(is_first_newline(contents@, k as int));
    assert(r@ =~= credited(contents@, filename@, k as int));
    r
}

/// How many times an entry is sent: once per update interval during the
/// time given to each entry.
pub fn sends_per_entry(time_per_entry: u64, update_interval: u64) -> (r: u64)
    requires
        update_interval > 0,
    ensures
        r == time_per_entry / update_interval,
{
    time_per_entry / update_interval
}

/// The credited source is the source's first line with its newline, the
/// credit comment, then all the rest of the source unchanged: taking the
/// comment out gives back the source exactly, and the first line is left
/// where it was.
pub proof fn law_credit_inserted_after_first_line(source: Seq<char>, name: Seq<char>, k: int)
    requires
        is_first_newline(source, k),
    ensures
        ({
            let c = credited(source, name, k);
            let m = credit_comment(name).len() as int;
            &&& c.len() == source.len() + m
            &&& c.subrange(0, k + 1) == source.subrange(0, k + 1)
            &&& c.subrange(k + 1, k + 1 + m) == credit_comment(name)
            &&& c.subrange(0, k + 1) + c.subrange(k + 1 + m, c.len() as int) == source
        }),
{
    let c = credited(source, name, k);
    let m = credit_comment(name).len() as int;
    let head = source.subrange(0, k + 1);
    let tail = source.subrange(k + 1, source.len() as int);
    assert(c =~= head + credit_comment(name) + tail);
    assert(c.subrange(0, k + 1) =~= head);
    assert(c.subrange(k + 1, k + 1 + m) =~= credit_comment(name));
    assert(c.subrange(k + 1 + m, c.len() as int) =~= tail);
    assert(head + tail =~= source);
}

} // verus!
