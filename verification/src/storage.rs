//! The on-disk form of a task list: a JSON array of task records with fields
//! `id`, `description`, `completed` and `due_date`, and nothing else.
//!
//! [`save_tasks`] writes the canonical text; [`load_tasks`] reads it back and
//! rejects anything else. [`lemma_dec_enc_tasks`] proves that every saved list
//! is read back exactly. String fields escape only `"` and `\`; a stored id
//! must be below `u32::MAX`, so that the next free id always fits.

use vstd::prelude::*;

use crate::task::{Task, TaskView};
use crate::text::{all_digits, digits_val, is_digit, join_with, lemma_digits_val_mono,
    lemma_digits_val_nonneg, lemma_join_with_push, lemma_u32_digits_val, parse_u32_range,
    push_char, push_u32, u32_digits};

verus! {

pub open spec fn lit_true() -> Seq<char> {
    seq!['t', 'r', 'u', 'e']
}

pub open spec fn lit_false() -> Seq<char> {
    seq!['f', 'a', 'l', 's', 'e']
}

pub open spec fn lit_null() -> Seq<char> {
    seq!['n', 'u', 'l', 'l']
}

/// `{"id":` — a record opens with its id field.
pub open spec fn key_id() -> Seq<char> {
    seq!['{', '"', 'i', 'd', '"', ':']
}

/// `,"description":"` — up to and including the string's opening quote.
pub open spec fn key_desc() -> Seq<char> {
    seq![',', '"', 'd', 'e', 's', 'c', 'r', 'i', 'p', 't', 'i', 'o', 'n', '"', ':', '"']
}

/// `,"completed":`
pub open spec fn key_completed() -> Seq<char> {
    seq![',', '"', 'c', 'o', 'm', 'p', 'l', 'e', 't', 'e', 'd', '"', ':']
}

/// `,"due_date":`
pub open spec fn key_due() -> Seq<char> {
    seq![',', '"', 'd', 'u', 'e', '_', 'd', 'a', 't', 'e', '"', ':']
}

/// How one character is written inside a quoted string.
pub open spec fn esc_char(c: char) -> Seq<char> {
    if c == '"' || c == '\\' {
        seq!['\\', c]
    } else {
        seq![c]
    }
}

/// A string's characters with their escapes, without the enclosing quotes.
pub open spec fn enc_str_body(s: Seq<char>) -> Seq<char>
    decreases s.len(),
{
    if s.len() == 0 {
        Seq::empty()
    } else {
        esc_char(s[0]) + enc_str_body(s.drop_first())
    }
}

pub open spec fn enc_string(s: Seq<char>) -> Seq<char> {
    seq!['"'] + enc_str_body(s) + seq!['"']
}

pub open spec fn enc_bool(b: bool) -> Seq<char> {
    if b {
        lit_true()
    } else {
        lit_false()
    }
}

pub open spec fn enc_opt_string(o: Option<Seq<char>>) -> Seq<char> {
    match o {
        Some(d) => enc_string(d),
        None => lit_null(),
    }
}

/// One task record.
pub open spec fn enc_task(t: TaskView) -> Seq<char> {
    key_id() + u32_digits(t.id) + key_desc() + enc_str_body(t.description) + seq!['"']
        + key_completed() + enc_bool(t.completed) + key_due() + enc_opt_string(t.due_date)
        + seq!['}']
}

/// The whole store: records joined with commas, inside brackets.
pub open spec fn enc_tasks(ts: Seq<TaskView>) -> Seq<char> {
    seq!['['] + join_with(',', ts.map_values(|t: TaskView| enc_task(t))) + seq![']']
}

/// Appends the escaped characters of `s`.
fn enc_str_into(out: &mut String, s: &String)
    ensures
        final(out)@ == old(out)@ + enc_str_body(s@),
{
    let ghost base = old(out)@;
    let n = s.as_str().unicode_len();
    let mut i: usize = 0;
    proof {
        assert(s@.skip(0) =~= s@);
        assert(base + Seq::<char>::empty() =~= base);
    }
    while i < n
        invariant
            n == s@.len(),
            i <= n,
            base.len() <= out@.len(),
            out@ == base + out@.skip(base.len() as int),
            enc_str_body(s@) == out@.skip(base.len() as int) + enc_str_body(s@.skip(i as int)),
        decreases n - i,
    {
        let ghost tail = s@.skip(i as int);
        let ghost built = out@.skip(base.len() as int);
        let c = s.as_str().get_char(i);
        proof {
            assert(tail[0] == s@[i as int]);
            assert(tail.drop_first() =~= s@.skip(i as int + 1));
        }
        if c == '"' || c == '\\' {
            push_char(out, '\\');
            push_char(out, c);
            proof {
                assert(out@.skip(base.len() as int) =~= built + esc_char(s@[i as int]));
            }
        } else {
            push_char(out, c);
            proof {
                assert(out@.skip(base.len() as int) =~= built + esc_char(s@[i as int]));
            }
        }
        proof {
            assert(out@ =~= base + out@.skip(base.len() as int));
            assert(built + (esc_char(s@[i as int]) + enc_str_body(s@.skip(i as int + 1))) =~= (built
                + esc_char(s@[i as int])) + enc_str_body(s@.skip(i as int + 1)));
        }
        i += 1;
    }
    proof {
        assert(s@.skip(n as int) =~= Seq::<char>::empty());
        assert(enc_str_body(Seq::<char>::empty()) =~= Seq::<char>::empty());
        assert(out@.skip(base.len() as int) + Seq::<char>::empty() =~= out@.skip(
            base.len() as int,
        ));
    }
}

/// Appends one task record.
fn enc_task_into(out: &mut String, t: &Task)
    ensures
        final(out)@ == old(out)@ + enc_task(t@),
{
    proof {
        reveal_strlit("{\"id\":");
        reveal_strlit(",\"description\":\"");
        reveal_strlit(",\"completed\":");
        reveal_strlit(",\"due_date\":");
        reveal_strlit("true");
        reveal_strlit("false");
        reveal_strlit("null");
        assert("{\"id\":"@ =~= key_id());
        assert(",\"description\":\""@ =~= key_desc());
        assert(",\"completed\":"@ =~= key_completed());
        assert(",\"due_date\":"@ =~= key_due());
        assert("true"@ =~= lit_true());
        assert("false"@ =~= lit_false());
        assert("null"@ =~= lit_null());
    }
    out.append("{\"id\":");
    push_u32(out, t.id);
    out.append(",\"description\":\"");
    enc_str_into(out, &t.description);
    push_char(out, '"');
    out.append(",\"completed\":");
    if t.completed {
        out.append("true");
    } else {
        out.append("false");
    }
    out.append(",\"due_date\":");
    match &t.due_date {
        Some(d) => {
            push_char(out, '"');
            enc_str_into(out, d);
            push_char(out, '"');
            proof {
                assert(seq!['"'] + enc_str_body(d@) + seq!['"'] =~= enc_opt_string(
                    t@.due_date,
                ));
            }
        },
        None => {
            out.append("null");
        },
    }
    push_char(out, '}');
    proof {
        assert(final(out)@ =~= old(out)@ + enc_task(t@));
    }
}

/// Serializes the full task list to its canonical store text.
pub fn save_tasks(tasks: &Vec<Task>) -> (r: String)
    ensures
        r@ == enc_tasks(tasks.deep_view()),
{
    let ghost encs = tasks.deep_view().map_values(|t: TaskView| enc_task(t));
    let mut out = String::new();
    push_char(&mut out, '[');
    let mut i: usize = 0;
    proof {
        assert(encs.subrange(0, 0) =~= Seq::<Seq<char>>::empty());
        assert(out@ =~= seq!['['] + join_with(',', encs.subrange(0, 0)));
    }
    while i < tasks.len()
        invariant
            i <= tasks@.len(),
            encs == tasks.deep_view().map_values(|t: TaskView| enc_task(t)),
            out@ == seq!['['] + join_with(',', encs.subrange(0, i as int)),
        decreases tasks@.len() - i,
    {
        let ghost pre = encs.subrange(0, i as int);
        proof {
            assert(encs.subrange(0, i as int + 1) =~= pre.push(encs[i as int]));
            lemma_join_with_push(',', pre, encs[i as int]);
        }
        if i > 0 {
            push_char(&mut out, ',');
            enc_task_into(&mut out, &tasks[i]);
            proof {
                assert(encs[i as int] == enc_task(tasks.deep_view()[i as int]));
                assert(out@ =~= seq!['['] + join_with(',', encs.subrange(0, i as int + 1)));
            }
        } else {
            enc_task_into(&mut out, &tasks[i]);
            proof {
                assert(encs[i as int] == enc_task(tasks.deep_view()[i as int]));
                assert(pre.len() == 0);
                assert(out@ =~= seq!['['] + join_with(',', encs.subrange(0, i as int + 1)));
            }
        }
        i += 1;
    }
    push_char(&mut out, ']');
    proof {
        assert(encs.subrange(0, tasks@.len() as int) =~= encs);
        assert(out@ =~= enc_tasks(tasks.deep_view()));
    }
    out
}

/// `l` stands at position `i` of `s`.
pub open spec fn lit_at(s: Seq<char>, i: int, l: Seq<char>) -> bool {
    0 <= i && i + l.len() <= s.len() && s.subrange(i, i + l.len()) == l
}

/// Reads a quoted string's characters from position `i` (after the opening
/// quote) up to its closing quote, undoing the escapes.
pub open spec fn d_str_body(s: Seq<char>, i: int) -> Option<(Seq<char>, int)>
    decreases s.len() - i,
    when 0 <= i <= s.len()
{
    if i == s.len() {
        None
    } else if s[i] == '"' {
        Some((Seq::empty(), i + 1))
    } else if s[i] == '\\' {
        if i + 2 <= s.len() && (s[i + 1] == '"' || s[i + 1] == '\\') {
            match d_str_body(s, i + 2) {
                Some(r) => Some((seq![s[i + 1]] + r.0, r.1)),
                None => None,
            }
        } else {
            None
        }
    } else {
        match d_str_body(s, i + 1) {
            Some(r) => Some((seq![s[i]] + r.0, r.1)),
            None => None,
        }
    }
}

/// The first position at or after `i` that does not hold a digit.
pub open spec fn digit_run_end(s: Seq<char>, i: int) -> int
    decreases s.len() - i,
    when 0 <= i <= s.len()
{
    if i < s.len() && is_digit(s[i]) {
        digit_run_end(s, i + 1)
    } else {
        i
    }
}

/// Reads a number: the digit run at `i`, which must be nonempty and stay
/// below `u32::MAX`.
pub open spec fn d_num(s: Seq<char>, i: int) -> Option<(u32, int)> {
    if 0 <= i <= s.len() {
        let j = digit_run_end(s, i);
        if i < j <= s.len() && digits_val(s.subrange(i, j)) < u32::MAX {
            Some((digits_val(s.subrange(i, j)) as u32, j))
        } else {
            None
        }
    } else {
        None
    }
}

pub open spec fn d_bool(s: Seq<char>, i: int) -> Option<(bool, int)> {
    if lit_at(s, i, lit_true()) {
        Some((true, i + 4))
    } else if lit_at(s, i, lit_false()) {
        Some((false, i + 5))
    } else {
        None
    }
}

pub open spec fn d_opt_string(s: Seq<char>, i: int) -> Option<(Option<Seq<char>>, int)> {
    if lit_at(s, i, lit_null()) {
        Some((None, i + 4))
    } else if 0 <= i < s.len() && s[i] == '"' {
        match d_str_body(s, i + 1) {
            Some(r) => Some((Some(r.0), r.1)),
            None => None,
        }
    } else {
        None
    }
}

/// Reads one task record starting at `i`.
pub open spec fn d_task(s: Seq<char>, i: int) -> Option<(TaskView, int)> {
    if !lit_at(s, i, key_id()) {
        None
    } else {
        match d_num(s, i + 6) {
            None => None,
            Some(rid) => if !lit_at(s, rid.1, key_desc()) {
                None
            } else {
                match d_str_body(s, rid.1 + 16) {
                    None => None,
                    Some(rd) => if !lit_at(s, rd.1, key_completed()) {
                        None
                    } else {
                        match d_bool(s, rd.1 + 13) {
                            None => None,
                            Some(rb) => if !lit_at(s, rb.1, key_due()) {
                                None
                            } else {
                                match d_opt_string(s, rb.1 + 12) {
                                    None => None,
                                    Some(ro) => if ro.1 < s.len() && s[ro.1] == '}' {
                                        Some(
                                            (
                                                TaskView {
                                                    id: rid.0,
                                                    description: rd.0,
                                                    completed: rb.0,
                                                    due_date: ro.0,
                                                },
                                                ro.1 + 1,
                                            ),
                                        )
                                    } else {
                                        None
                                    },
                                }
                            },
                        }
                    },
                }
            },
        }
    }
}

/// Reads the records after the first one: `]` ends the list, `,` starts
/// another record.
pub open spec fn d_list_rest(s: Seq<char>, i: int) -> Option<(Seq<TaskView>, int)>
    decreases s.len() - i,
    when 0 <= i <= s.len()
{
    if i < s.len() && s[i] == ']' {
        Some((Seq::empty(), i + 1))
    } else if i < s.len() && s[i] == ',' {
        match d_task(s, i + 1) {
            None => None,
            Some(rt) => if i + 1 < rt.1 && rt.1 <= s.len() {
                match d_list_rest(s, rt.1) {
                    None => None,
                    Some(rl) => Some((seq![rt.0] + rl.0, rl.1)),
                }
            } else {
                None
            },
        }
    } else {
        None
    }
}

/// Reads the list's records from position `i` (after the opening bracket).
pub open spec fn d_list(s: Seq<char>, i: int) -> Option<(Seq<TaskView>, int)> {
    if 0 <= i < s.len() && s[i] == ']' {
        Some((Seq::empty(), i + 1))
    } else {
        match d_task(s, i) {
            None => None,
            Some(rt) => if i < rt.1 && rt.1 <= s.len() {
                match d_list_rest(s, rt.1) {
                    None => None,
                    Some(rl) => Some((seq![rt.0] + rl.0, rl.1)),
                }
            } else {
                None
            },
        }
    }
}

/// What [`load_tasks`] accepts: a full store text, nothing before or after.
pub open spec fn dec_tasks(s: Seq<char>) -> Option<Seq<TaskView>> {
    if s.len() >= 1 && s[0] == '[' {
        match d_list(s, 1) {
            Some(r) => if r.1 == s.len() {
                Some(r.0)
            } else {
                None
            },
            None => None,
        }
    } else {
        None
    }
}

/// Splits one subrange equality over a concatenation into its two halves.
proof fn lemma_peel(u: Seq<char>, i: int, a: Seq<char>, b: Seq<char>)
    requires
        0 <= i,
        i + a.len() + b.len() <= u.len(),
        u.subrange(i, i + a.len() + b.len()) == a + b,
    ensures
        u.subrange(i, i + a.len()) == a,
        u.subrange(i + a.len(), i + a.len() + b.len()) == b,
{
    let w = u.subrange(i, i + a.len() + b.len());
    assert forall|k: int| 0 <= k < a.len() implies u.subrange(i, i + a.len())[k] == a[k] by {
        assert(w[k] == (a + b)[k]);
    }
    assert(u.subrange(i, i + a.len()) =~= a);
    assert forall|k: int| 0 <= k < b.len() implies u.subrange(
        i + a.len(),
        i + a.len() + b.len(),
    )[k] == b[k] by {
        assert(w[a.len() + k] == (a + b)[a.len() + k]);
    }
    assert(u.subrange(i + a.len(), i + a.len() + b.len()) =~= b);
}

/// An escaped string followed by its closing quote reads back exactly.
proof fn lemma_d_str_body_enc(u: Seq<char>, i: int, s: Seq<char>)
    requires
        0 <= i,
        i + enc_str_body(s).len() + 1 <= u.len(),
        u.subrange(i, i + enc_str_body(s).len()) == enc_str_body(s),
        u[i + enc_str_body(s).len()] == '"',
    ensures
        d_str_body(u, i) == Some((s, i + enc_str_body(s).len() + 1)),
    decreases s.len(),
{
    if s.len() == 0 {
        assert(u[i] == '"');
    } else {
        let e0 = esc_char(s[0]);
        let e1 = enc_str_body(s.drop_first());
        lemma_peel(u, i, e0, e1);
        if s[0] == '"' || s[0] == '\\' {
            assert(u[i] == e0[0]);
            assert(u[i + 1] == e0[1]);
            assert(u[i] == '\\');
            assert(u[i + 1] == s[0]);
            lemma_d_str_body_enc(u, i + 2, s.drop_first());
            assert(seq![u[i + 1]] + s.drop_first() =~= s);
        } else {
            assert(u[i] == e0[0]);
            assert(u[i] == s[0]);
            lemma_d_str_body_enc(u, i + 1, s.drop_first());
            assert(seq![u[i]] + s.drop_first() =~= s);
        }
    }
}

/// A digit run bounded by a non-digit ends exactly where it was written.
proof fn lemma_digit_run_end_of(u: Seq<char>, i: int, d: Seq<char>)
    requires
        0 <= i,
        i + d.len() <= u.len(),
        all_digits(d),
        u.subrange(i, i + d.len()) == d,
        i + d.len() == u.len() || !is_digit(u[i + d.len()]),
    ensures
        digit_run_end(u, i) == i + d.len(),
    decreases d.len(),
{
    if d.len() == 0 {
        assert(i == u.len() || !is_digit(u[i]));
    } else {
        assert(d =~= seq![d[0]] + d.drop_first());
        lemma_peel(u, i, seq![d[0]], d.drop_first());
        assert(u[i] == seq![d[0]][0]);
        assert(is_digit(u[i]));
        assert(all_digits(d.drop_first()));
        lemma_digit_run_end_of(u, i + 1, d.drop_first());
    }
}

/// An encoded number followed by a non-digit reads back exactly.
proof fn lemma_d_num_enc(u: Seq<char>, i: int, n: u32)
    requires
        0 <= i,
        n < u32::MAX,
        i + u32_digits(n).len() <= u.len(),
        u.subrange(i, i + u32_digits(n).len()) == u32_digits(n),
        i + u32_digits(n).len() == u.len() || !is_digit(u[i + u32_digits(n).len()]),
    ensures
        d_num(u, i) == Some((n, i + u32_digits(n).len())),
{
    lemma_u32_digits_val(n);
    lemma_digit_run_end_of(u, i, u32_digits(n));
}

/// An encoded boolean reads back exactly.
proof fn lemma_d_bool_enc(u: Seq<char>, i: int, b: bool)
    requires
        0 <= i,
        i + enc_bool(b).len() <= u.len(),
        u.subrange(i, i + enc_bool(b).len()) == enc_bool(b),
    ensures
        d_bool(u, i) == Some((b, i + enc_bool(b).len())),
{
    if b {
        assert(lit_at(u, i, lit_true()));
    } else {
        if lit_at(u, i, lit_true()) {
            assert(u.subrange(i, i + 4)[0] == 't');
            assert(u.subrange(i, i + 5)[0] == 'f');
            assert(false);
        }
        assert(lit_at(u, i, lit_false()));
    }
}

/// An encoded optional string reads back exactly.
proof fn lemma_d_opt_enc(u: Seq<char>, i: int, o: Option<Seq<char>>)
    requires
        0 <= i,
        i + enc_opt_string(o).len() <= u.len(),
        u.subrange(i, i + enc_opt_string(o).len()) == enc_opt_string(o),
    ensures
        d_opt_string(u, i) == Some((o, i + enc_opt_string(o).len())),
{
    match o {
        None => {
            assert(lit_at(u, i, lit_null()));
        },
        Some(d) => {
            let body = enc_str_body(d);
            assert(enc_string(d) =~= seq!['"'] + (body + seq!['"']));
            lemma_peel(u, i, seq!['"'], body + seq!['"']);
            lemma_peel(u, i + 1, body, seq!['"']);
            assert(u[i] == seq!['"'][0]);
            assert(u[i + 1 + body.len()] == u.subrange(
                i + 1 + body.len(),
                i + 1 + body.len() + 1,
            )[0]);
            if lit_at(u, i, lit_null()) {
                assert(u.subrange(i, i + 4)[0] == 'n');
                assert(false);
            }
            lemma_d_str_body_enc(u, i + 1, d);
        },
    }
}

/// An encoded task record reads back exactly.
#[verifier::rlimit(100)]
proof fn lemma_d_task_enc(u: Seq<char>, i: int, t: TaskView)
    requires
        0 <= i,
        t.id < u32::MAX,
        i + enc_task(t).len() <= u.len(),
        u.subrange(i, i + enc_task(t).len()) == enc_task(t),
    ensures
        d_task(u, i) == Some((t, i + enc_task(t).len())),
{
    let p1 = key_id();
    let p2 = u32_digits(t.id);
    let p3 = key_desc();
    let p4 = enc_str_body(t.description);
    let p5 = seq!['"'];
    let p6 = key_completed();
    let p7 = enc_bool(t.completed);
    let p8 = key_due();
    let p9 = enc_opt_string(t.due_date);
    let p10 = seq!['}'];
    assert(enc_task(t) =~= p1 + (p2 + (p3 + (p4 + (p5 + (p6 + (p7 + (p8 + (p9 + p10)))))))));
    let o1 = i + p1.len();
    let o2 = o1 + p2.len();
    let o3 = o2 + p3.len();
    let o4 = o3 + p4.len();
    let o5 = o4 + p5.len();
    let o6 = o5 + p6.len();
    let o7 = o6 + p7.len();
    let o8 = o7 + p8.len();
    let o9 = o8 + p9.len();
    let o10 = o9 + p10.len();
    lemma_peel(u, i, p1, p2 + (p3 + (p4 + (p5 + (p6 + (p7 + (p8 + (p9 + p10))))))));
    lemma_peel(u, o1, p2, p3 + (p4 + (p5 + (p6 + (p7 + (p8 + (p9 + p10)))))));
    lemma_peel(u, o2, p3, p4 + (p5 + (p6 + (p7 + (p8 + (p9 + p10))))));
    lemma_peel(u, o3, p4, p5 + (p6 + (p7 + (p8 + (p9 + p10)))));
    lemma_peel(u, o4, p5, p6 + (p7 + (p8 + (p9 + p10))));
    lemma_peel(u, o5, p6, p7 + (p8 + (p9 + p10)));
    lemma_peel(u, o6, p7, p8 + (p9 + p10));
    lemma_peel(u, o7, p8, p9 + p10);
    lemma_peel(u, o8, p9, p10);
    assert(lit_at(u, i, key_id()));
    assert(u[o2] == u.subrange(o2, o3)[0]);
    assert(!is_digit(u[o2]));
    lemma_d_num_enc(u, o1, t.id);
    assert(lit_at(u, o2, key_desc()));
    assert(u[o4] == u.subrange(o4, o5)[0]);
    assert(u[o4] == '"');
    lemma_d_str_body_enc(u, o3, t.description);
    assert(lit_at(u, o4 + 1, key_completed()));
    lemma_d_bool_enc(u, o6, t.completed);
    assert(lit_at(u, o7, key_due()));
    lemma_d_opt_enc(u, o8, t.due_date);
    assert(u[o9] == u.subrange(o9, o10)[0]);
    assert(u[o9] == '}');
    assert(o1 == i + 6);
    assert(o3 == o2 + 16);
    assert(o6 == o4 + 1 + 13);
    assert(o8 == o7 + 12);
}

/// The tail of a stored list after the first record: commas, records, and the
/// closing bracket.
spec fn rest_tail(ts: Seq<TaskView>) -> Seq<char>
    decreases ts.len(),
{
    if ts.len() == 0 {
        seq![']']
    } else {
        seq![','] + enc_task(ts[0]) + rest_tail(ts.drop_first())
    }
}

/// The comma-joined records plus the closing bracket, unfolded head-first.
proof fn lemma_join_rest_tail(ts: Seq<TaskView>)
    ensures
        join_with(',', ts.map_values(|t: TaskView| enc_task(t))) + seq![']'] == if ts.len() == 0 {
            seq![']']
        } else {
            enc_task(ts[0]) + rest_tail(ts.drop_first())
        },
    decreases ts.len(),
{
    let m = ts.map_values(|t: TaskView| enc_task(t));
    if ts.len() == 0 {
        assert(m.len() == 0);
        assert(join_with(',', m) + seq![']'] =~= seq![']']);
    } else if ts.len() == 1 {
        assert(join_with(',', m) == m[0]);
        assert(m[0] == enc_task(ts[0]));
        assert(rest_tail(ts.drop_first()) == seq![']']);
    } else {
        lemma_join_rest_tail(ts.drop_first());
        assert(m.drop_first() =~= ts.drop_first().map_values(|t: TaskView| enc_task(t)));
        assert(m[0] == enc_task(ts[0]));
        let md = ts.drop_first().map_values(|t: TaskView| enc_task(t));
        assert(join_with(',', m) == m[0] + seq![','] + join_with(',', md));
        assert(rest_tail(ts.drop_first()) == seq![','] + enc_task(ts.drop_first()[0]) + rest_tail(
            ts.drop_first().drop_first(),
        ));
        assert(join_with(',', md) + seq![']'] == enc_task(ts.drop_first()[0]) + rest_tail(
            ts.drop_first().drop_first(),
        ));
        assert((m[0] + seq![','] + join_with(',', md)) + seq![']'] =~= m[0] + (seq![','] + (
        join_with(',', md) + seq![']'])));
        assert(seq![','] + (enc_task(ts.drop_first()[0]) + rest_tail(ts.drop_first().drop_first()))
            =~= rest_tail(ts.drop_first()));
        assert(m[0] + (seq![','] + (join_with(',', md) + seq![']'])) =~= enc_task(ts[0])
            + rest_tail(ts.drop_first()));
    }
}

/// The stored tail after the first record reads back exactly.
proof fn lemma_d_list_rest_enc(u: Seq<char>, i: int, ts: Seq<TaskView>)
    requires
        0 <= i,
        forall|k: int| 0 <= k < ts.len() ==> #[trigger] ts[k].id < u32::MAX,
        i + rest_tail(ts).len() <= u.len(),
        u.subrange(i, i + rest_tail(ts).len()) == rest_tail(ts),
    ensures
        d_list_rest(u, i) == Some((ts, i + rest_tail(ts).len())),
    decreases ts.len(),
{
    if ts.len() == 0 {
        assert(u[i] == u.subrange(i, i + 1)[0]);
        assert(u[i] == ']');
    } else {
        let et = enc_task(ts[0]);
        let rt = rest_tail(ts.drop_first());
        assert(rest_tail(ts) =~= seq![','] + (et + rt));
        lemma_peel(u, i, seq![','], et + rt);
        lemma_peel(u, i + 1, et, rt);
        assert(u[i] == seq![','][0]);
        assert(ts[0].id < u32::MAX);
        lemma_d_task_enc(u, i + 1, ts[0]);
        assert(rt.len() >= 1);
        assert(forall|k: int|
            0 <= k < ts.drop_first().len() ==> #[trigger] ts.drop_first()[k].id < u32::MAX);
        lemma_d_list_rest_enc(u, i + 1 + et.len(), ts.drop_first());
        assert(seq![ts[0]] + ts.drop_first() =~= ts);
    }
}

/// A nonempty store text unfolded head-first: the bracket, the first record,
/// the tail.
proof fn lemma_enc_tasks_unfold(ts: Seq<TaskView>)
    requires
        ts.len() > 0,
    ensures
        enc_tasks(ts) == seq!['['] + (enc_task(ts[0]) + rest_tail(ts.drop_first())),
{
    lemma_join_rest_tail(ts);
    assert(enc_tasks(ts) =~= seq!['['] + (enc_task(ts[0]) + rest_tail(ts.drop_first())));
}

/// The first record of a nonempty store text reads back exactly.
#[verifier::rlimit(100)]
proof fn lemma_d_list_enc_head(u: Seq<char>, ts: Seq<TaskView>)
    requires
        ts.len() > 0,
        forall|k: int| 0 <= k < ts.len() ==> #[trigger] ts[k].id < u32::MAX,
        u.len() == 1 + enc_task(ts[0]).len() + rest_tail(ts.drop_first()).len(),
        u.subrange(0, u.len() as int) == seq!['['] + (enc_task(ts[0]) + rest_tail(
            ts.drop_first(),
        )),
    ensures
        u[0] == '[',
        u[1] == '{',
        u.len() == 1 + enc_task(ts[0]).len() + rest_tail(ts.drop_first()).len(),
        enc_task(ts[0]).len() >= 6,
        d_task(u, 1) == Some((ts[0], 1 + enc_task(ts[0]).len() as int)),
        u.subrange(1 + enc_task(ts[0]).len() as int, u.len() as int) == rest_tail(
            ts.drop_first(),
        ),
{
    let et = enc_task(ts[0]);
    let rt = rest_tail(ts.drop_first());
    lemma_peel(u, 0, seq!['['], et + rt);
    lemma_peel(u, 1, et, rt);
    assert(u[0] == seq!['['][0]);
    lemma_d_task_enc(u, 1, ts[0]);
    assert(lit_at(u, 1, key_id()));
    assert(u[1] == '{') by {
        assert(u.subrange(1int, 7int) == key_id());
        assert(u[1] == u.subrange(1int, 7int)[0]);
    }
    assert(et.len() >= 6);
}

/// The records of a nonempty store text read back exactly.
#[verifier::rlimit(100)]
proof fn lemma_d_list_enc(u: Seq<char>, ts: Seq<TaskView>)
    requires
        ts.len() > 0,
        forall|k: int| 0 <= k < ts.len() ==> #[trigger] ts[k].id < u32::MAX,
        u.len() == 1 + enc_task(ts[0]).len() + rest_tail(ts.drop_first()).len(),
        u.subrange(0, u.len() as int) == seq!['['] + (enc_task(ts[0]) + rest_tail(
            ts.drop_first(),
        )),
    ensures
        u[0] == '[',
        u.len() >= 1,
        d_list(u, 1) == Some((ts, u.len() as int)),
{
    lemma_d_list_enc_head(u, ts);
    let et = enc_task(ts[0]);
    assert(forall|k: int|
        0 <= k < ts.drop_first().len() ==> #[trigger] ts.drop_first()[k].id < u32::MAX);
    lemma_d_list_rest_enc(u, 1 + et.len() as int, ts.drop_first());
    assert(seq![ts[0]] + ts.drop_first() =~= ts);
    assert(d_list(u, 1) == Some((ts, u.len() as int)));
}

/// Every saved task list is loaded back exactly: decoding the encoding of
/// `ts` yields `ts` itself, provided every id is below `u32::MAX` (which
/// holds of every list the engine can build).
pub proof fn lemma_dec_enc_tasks(ts: Seq<TaskView>)
    requires
        forall|k: int| 0 <= k < ts.len() ==> #[trigger] ts[k].id < u32::MAX,
    ensures
        dec_tasks(enc_tasks(ts)) == Some(ts),
{
    if ts.len() == 0 {
        let u = enc_tasks(ts);
        assert(ts.map_values(|t: TaskView| enc_task(t)).len() == 0);
        assert(u =~= seq!['[', ']']);
        assert(u[0] == '[');
        assert(u[1] == ']');
        assert(d_list(u, 1) == Some((Seq::<TaskView>::empty(), 2int)));
    } else {
        lemma_enc_tasks_unfold(ts);
        let u = enc_tasks(ts);
        assert(u.subrange(0, u.len() as int) =~= u);
        lemma_d_list_enc(u, ts);
    }
}

/// Whether `lit` stands at position `i` of `s`.
fn e_lit(s: &str, i: usize, lit: &str) -> (b: bool)
    requires
        i <= s@.len(),
    ensures
        b == lit_at(s@, i as int, lit@),
{
    let n = s.unicode_len();
    let m = lit.unicode_len();
    if m > n - i {
        return false;
    }
    let mut k: usize = 0;
    while k < m
        invariant
            i + m <= n,
            k <= m,
            n == s@.len(),
            m == lit@.len(),
            forall|j: int| 0 <= j < k ==> s@[i + j] == lit@[j],
        decreases m - k,
    {
        let a = s.get_char(i + k);
        let b = lit.get_char(k);
        if a != b {
            proof {
                assert(s@.subrange(i as int, i as int + m as int)[k as int] == s@[i as int
                    + k as int]);
            }
            return false;
        }
        k += 1;
    }
    proof {
        assert(s@.subrange(i as int, i as int + m as int) =~= lit@);
    }
    true
}

/// Reads a quoted string's remaining characters, undoing the escapes.
fn e_str_body(s: &str, i: usize) -> (r: Option<(String, usize)>)
    requires
        i <= s@.len(),
    ensures
        match r {
            Some(v) => d_str_body(s@, i as int) == Some((v.0@, v.1 as int)) && i < v.1
                <= s@.len(),
            None => d_str_body(s@, i as int) is None,
        },
    decreases s@.len() - i,
{
    let n = s.unicode_len();
    if i == n {
        return None;
    }
    let c = s.get_char(i);
    if c == '"' {
        return Some((String::new(), i + 1));
    }
    if c == '\\' {
        if i + 1 < n {
            let c2 = s.get_char(i + 1);
            if c2 == '"' || c2 == '\\' {
                match e_str_body(s, i + 2) {
                    Some(p) => {
                        let mut out = String::new();
                        push_char(&mut out, c2);
                        out.append(p.0.as_str());
                        proof {
                            assert(out@ =~= seq![s@[i as int + 1]] + p.0@);
                        }
                        return Some((out, p.1));
                    },
                    None => {
                        return None;
                    },
                }
            }
        }
        return None;
    }
    match e_str_body(s, i + 1) {
        Some(p) => {
            let mut out = String::new();
            push_char(&mut out, c);
            out.append(p.0.as_str());
            proof {
                assert(out@ =~= seq![s@[i as int]] + p.0@);
            }
            Some((out, p.1))
        },
        None => None,
    }
}

/// Finds the end of the digit run at `j`.
fn run_end(s: &str, j: usize) -> (e: usize)
    requires
        j <= s@.len(),
    ensures
        e == digit_run_end(s@, j as int),
        j <= e <= s@.len(),
        all_digits(s@.subrange(j as int, e as int)),
    decreases s@.len() - j,
{
    let n = s.unicode_len();
    if j < n {
        let c = s.get_char(j);
        let cv = c as u32;
        if 48 <= cv && cv <= 57 {
            proof {
                assert(is_digit(s@[j as int]));
            }
            let e = run_end(s, j + 1);
            proof {
                let run = s@.subrange(j as int, e as int);
                assert forall|k: int| 0 <= k < run.len() implies is_digit(run[k]) by {
                    if k == 0 {
                        assert(run[0] == s@[j as int]);
                    } else {
                        assert(run[k] == s@.subrange(j as int + 1, e as int)[k - 1]);
                    }
                }
            }
            return e;
        }
        proof {
            assert(!is_digit(s@[j as int]));
            assert(s@.subrange(j as int, j as int).len() == 0);
        }
        return j;
    }
    proof {
        assert(s@.subrange(j as int, j as int).len() == 0);
    }
    j
}

/// Reads the number at `i`.
fn e_num(s: &str, i: usize) -> (r: Option<(u32, usize)>)
    requires
        i <= s@.len(),
    ensures
        match r {
            Some(v) => d_num(s@, i as int) == Some((v.0, v.1 as int)) && i < v.1 <= s@.len(),
            None => d_num(s@, i as int) is None,
        },
{
    let j = run_end(s, i);
    if j == i {
        return None;
    }
    let ghost run = s@.subrange(i as int, j as int);
    match parse_u32_range(s, i, j) {
        Some(v) => {
            if v == u32::MAX {
                return None;
            }
            Some((v, j))
        },
        None => {
            proof {
                lemma_digits_val_mono(run, run.len() as int);
            }
            None
        },
    }
}

/// Reads the boolean at `i`.
fn e_bool(s: &str, i: usize) -> (r: Option<(bool, usize)>)
    requires
        i <= s@.len(),
    ensures
        match r {
            Some(v) => d_bool(s@, i as int) == Some((v.0, v.1 as int)) && i < v.1 <= s@.len(),
            None => d_bool(s@, i as int) is None,
        },
{
    proof {
        reveal_strlit("true");
        reveal_strlit("false");
        assert("true"@ =~= lit_true());
        assert("false"@ =~= lit_false());
    }
    let n = s.unicode_len();
    if e_lit(s, i, "true") {
        proof {
            assert(i + 4 <= n);
        }
        return Some((true, i + 4));
    }
    if e_lit(s, i, "false") {
        proof {
            assert(i + 5 <= n);
        }
        return Some((false, i + 5));
    }
    None
}

/// Reads the optional due-date string at `i`.
fn e_opt_string(s: &str, i: usize) -> (r: Option<(Option<String>, usize)>)
    requires
        i <= s@.len(),
    ensures
        match r {
            Some(v) => d_opt_string(s@, i as int) == Some((v.0.deep_view(), v.1 as int)) && i
                < v.1 <= s@.len(),
            None => d_opt_string(s@, i as int) is None,
        },
{
    proof {
        reveal_strlit("null");
        assert("null"@ =~= lit_null());
    }
    let n = s.unicode_len();
    if e_lit(s, i, "null") {
        proof {
            assert(i + 4 <= n);
        }
        return Some((None, i + 4));
    }
    if i < n {
        let c = s.get_char(i);
        if c == '"' {
            match e_str_body(s, i + 1) {
                Some(p) => {
                    return Some((Some(p.0), p.1));
                },
                None => {
                    return None;
                },
            }
        }
    }
    None
}

/// Reads one task record at `i`.
#[verifier::rlimit(100)]
fn e_task(s: &str, i: usize) -> (r: Option<(Task, usize)>)
    requires
        i <= s@.len(),
    ensures
        match r {
            Some(v) => d_task(s@, i as int) == Some((v.0@, v.1 as int)) && i < v.1 <= s@.len(),
            None => d_task(s@, i as int) is None,
        },
{
    proof {
        reveal_strlit("{\"id\":");
        reveal_strlit(",\"description\":\"");
        reveal_strlit(",\"completed\":");
        reveal_strlit(",\"due_date\":");
        assert("{\"id\":"@ =~= key_id());
        assert(",\"description\":\""@ =~= key_desc());
        assert(",\"completed\":"@ =~= key_completed());
        assert(",\"due_date\":"@ =~= key_due());
    }
    let n = s.unicode_len();
    if !e_lit(s, i, "{\"id\":") {
        return None;
    }
    proof {
        assert(i + 6 <= n);
    }
    let (id, j1) = match e_num(s, i + 6) {
        Some(p) => p,
        None => {
            return None;
        },
    };
    if !e_lit(s, j1, ",\"description\":\"") {
        return None;
    }
    proof {
        assert(j1 + 16 <= n);
    }
    let (desc, j2) = match e_str_body(s, j1 + 16) {
        Some(p) => p,
        None => {
            return None;
        },
    };
    if !e_lit(s, j2, ",\"completed\":") {
        return None;
    }
    proof {
        assert(j2 + 13 <= n);
    }
    let (comp, j3) = match e_bool(s, j2 + 13) {
        Some(p) => p,
        None => {
            return None;
        },
    };
    if !e_lit(s, j3, ",\"due_date\":") {
        return None;
    }
    proof {
        assert(j3 + 12 <= n);
    }
    let (due, j4) = match e_opt_string(s, j3 + 12) {
        Some(p) => p,
        None => {
            return None;
        },
    };
    if j4 < n {
        let c = s.get_char(j4);
        if c == '}' {
            let t = Task { id, description: desc, completed: comp, due_date: due };
            return Some((t, j4 + 1));
        }
    }
    None
}

/// Reads the records after the first one.
fn e_list_rest(s: &str, i: usize) -> (r: Option<(Vec<Task>, usize)>)
    requires
        i <= s@.len(),
    ensures
        match r {
            Some(v) => d_list_rest(s@, i as int) == Some((v.0.deep_view(), v.1 as int)) && i
                < v.1 <= s@.len(),
            None => d_list_rest(s@, i as int) is None,
        },
    decreases s@.len() - i,
{
    let n = s.unicode_len();
    if i < n {
        let c = s.get_char(i);
        if c == ']' {
            let v: Vec<Task> = Vec::new();
            proof {
                assert(v.deep_view() =~= Seq::<TaskView>::empty());
            }
            return Some((v, i + 1));
        }
        if c == ',' {
            match e_task(s, i + 1) {
                Some(p) => {
                    let (t, j1) = p;
                    match e_list_rest(s, j1) {
                        Some(q) => {
                            let (mut v, j2) = q;
                            let ghost pre = v.deep_view();
                            v.insert(0, t);
                            proof {
                                assert(v.deep_view() =~= seq![t@] + pre);
                            }
                            return Some((v, j2));
                        },
                        None => {
                            return None;
                        },
                    }
                },
                None => {
                    return None;
                },
            }
        }
        return None;
    }
    None
}

/// Reads the records from position `i`, just after the opening bracket.
fn e_list(s: &str, i: usize) -> (r: Option<(Vec<Task>, usize)>)
    requires
        i <= s@.len(),
    ensures
        match r {
            Some(v) => d_list(s@, i as int) == Some((v.0.deep_view(), v.1 as int)) && i < v.1
                <= s@.len(),
            None => d_list(s@, i as int) is None,
        },
{
    let n = s.unicode_len();
    if i < n {
        let c = s.get_char(i);
        if c == ']' {
            let v: Vec<Task> = Vec::new();
            proof {
                assert(v.deep_view() =~= Seq::<TaskView>::empty());
            }
            return Some((v, i + 1));
        }
    }
    match e_task(s, i) {
        Some(p) => {
            let (t, j1) = p;
            match e_list_rest(s, j1) {
                Some(q) => {
                    let (mut v, j2) = q;
                    let ghost pre = v.deep_view();
                    v.insert(0, t);
                    proof {
                        assert(v.deep_view() =~= seq![t@] + pre);
                    }
                    Some((v, j2))
                },
                None => None,
            }
        },
        None => None,
    }
}

/// Parses a store text back into its tasks.
///
/// `None` stands for a store that does not exist yet: it yields the empty
/// list without error. Malformed text is rejected.
pub fn load_tasks(content: Option<&str>) -> (r: Result<Vec<Task>, String>)
    ensures
        match content {
            None => r matches Ok(v) && v.deep_view() == Seq::<TaskView>::empty(),
            Some(s) => match dec_tasks(s@) {
                Some(ts) => r matches Ok(v) && v.deep_view() == ts,
                None => r matches Err(e) && e@ == "malformed task store"@,
            },
        },
{
    match content {
        None => {
            let v: Vec<Task> = Vec::new();
            proof {
                assert(v.deep_view() =~= Seq::<TaskView>::empty());
            }
            Ok(v)
        },
        Some(s) => {
            let n = s.unicode_len();
            if n >= 1 {
                let c = s.get_char(0);
                if c == '[' {
                    match e_list(s, 1) {
                        Some(p) => {
                            let (v, j) = p;
                            if j == n {
                                return Ok(v);
                            }
                            return Err("malformed task store".to_owned());
                        },
                        None => {
                            return Err("malformed task store".to_owned());
                        },
                    }
                }
            }
            Err("malformed task store".to_owned())
        },
    }
}

/// The digit run found by `digit_run_end` is made of digits.
proof fn lemma_digit_run_all(s: Seq<char>, i: int)
    requires
        0 <= i <= s.len(),
    ensures
        i <= digit_run_end(s, i) <= s.len(),
        all_digits(s.subrange(i, digit_run_end(s, i))),
    decreases s.len() - i,
{
    let e = digit_run_end(s, i);
    if i < s.len() && is_digit(s[i]) {
        lemma_digit_run_all(s, i + 1);
        let run = s.subrange(i, e);
        assert forall|k: int| 0 <= k < run.len() implies is_digit(run[k]) by {
            if k == 0 {
                assert(run[0] == s[i]);
            } else {
                assert(run[k] == s.subrange(i + 1, e)[k - 1]);
            }
        }
    } else {
        assert(s.subrange(i, i).len() == 0);
    }
}

/// A decoded record's id is below `u32::MAX`.
proof fn lemma_d_task_id(s: Seq<char>, i: int)
    ensures
        match d_task(s, i) {
            Some(rt) => rt.0.id < u32::MAX,
            None => true,
        },
{
    if lit_at(s, i, key_id()) {
        lemma_digit_run_all(s, i + 6);
        let j = digit_run_end(s, i + 6);
        if i + 6 < j <= s.len() {
            lemma_digits_val_nonneg(s.subrange(i + 6, j));
        }
    }
}

/// Every id decoded after the first record is below `u32::MAX`.
proof fn lemma_d_list_rest_ids(s: Seq<char>, i: int)
    requires
        0 <= i <= s.len(),
    ensures
        match d_list_rest(s, i) {
            Some(r) => forall|k: int| 0 <= k < r.0.len() ==> #[trigger] r.0[k].id < u32::MAX,
            None => true,
        },
    decreases s.len() - i,
{
    if i < s.len() && s[i] == ']' {
    } else if i < s.len() && s[i] == ',' {
        match d_task(s, i + 1) {
            None => {},
            Some(rt) => {
                lemma_d_task_id(s, i + 1);
                if i + 1 < rt.1 && rt.1 <= s.len() {
                    lemma_d_list_rest_ids(s, rt.1);
                    match d_list_rest(s, rt.1) {
                        None => {},
                        Some(rl) => {
                            assert forall|k: int|
                                0 <= k < (seq![rt.0] + rl.0).len() implies #[trigger] (seq![rt.0]
                                + rl.0)[k].id < u32::MAX by {
                                if k == 0 {
                                    assert((seq![rt.0] + rl.0)[0] == rt.0);
                                } else {
                                    assert((seq![rt.0] + rl.0)[k] == rl.0[k - 1]);
                                }
                            }
                        },
                    }
                }
            },
        }
    }
}

/// Every id in a well-formed store text is below `u32::MAX`, so the next
/// free id after a load always fits.
pub proof fn lemma_dec_ids(s: Seq<char>)
    ensures
        match dec_tasks(s) {
            Some(ts) => forall|k: int| 0 <= k < ts.len() ==> #[trigger] ts[k].id < u32::MAX,
            None => true,
        },
{
    if s.len() >= 1 && s[0] == '[' {
        if 0 <= 1 < s.len() && s[1] == ']' {
        } else {
            match d_task(s, 1) {
                None => {},
                Some(rt) => {
                    lemma_d_task_id(s, 1);
                    if 1 < rt.1 && rt.1 <= s.len() {
                        lemma_d_list_rest_ids(s, rt.1);
                        match d_list_rest(s, rt.1) {
                            None => {},
                            Some(rl) => {
                                assert forall|k: int|
                                    0 <= k < (seq![rt.0] + rl.0).len() implies #[trigger] (seq![
                                    rt.0,
                                ] + rl.0)[k].id < u32::MAX by {
                                    if k == 0 {
                                        assert((seq![rt.0] + rl.0)[0] == rt.0);
                                    } else {
                                        assert((seq![rt.0] + rl.0)[k] == rl.0[k - 1]);
                                    }
                                }
                            },
                        }
                    }
                },
            }
        }
    }
}

} // verus!
