//! Counters of webhook requests and errors, and their text form for Prometheus.
use crate::numbers::{decimal, push_decimal};
use vstd::prelude::*;
use vstd::string::*;

verus! {

/// How often each operation was asked for and how often it failed. The counters
/// wrap around.
pub struct Metrics {
    records_requests: u64,
    records_errors: u64,
    changes_requests: u64,
    changes_errors: u64,
    adjust_requests: u64,
    adjust_errors: u64,
}

/// The values of the six counters.
pub struct Counters {
    pub records_requests: u64,
    pub records_errors: u64,
    pub changes_requests: u64,
    pub changes_errors: u64,
    pub adjust_requests: u64,
    pub adjust_errors: u64,
}

impl View for Metrics {
    type V = Counters;

    closed spec fn view(&self) -> Counters {
        Counters {
            records_requests: self.records_requests,
            records_errors: self.records_errors,
            changes_requests: self.changes_requests,
            changes_errors: self.changes_errors,
            adjust_requests: self.adjust_requests,
            adjust_errors: self.adjust_errors,
        }
    }
}

/// One more, wrapping around at the end of the range.
pub open spec fn one_more(n: u64) -> u64 {
    if n == u64::MAX {
        0
    } else {
        (n + 1) as u64
    }
}

impl Counters {
    /// Every counter is zero.
    pub open spec fn zero() -> Counters {
        Counters {
            records_requests: 0,
            records_errors: 0,
            changes_requests: 0,
            changes_errors: 0,
            adjust_requests: 0,
            adjust_errors: 0,
        }
    }

    /// No operation failed more often than it was asked for.
    pub open spec fn consistent(self) -> bool {
        &&& self.records_errors <= self.records_requests
        &&& self.changes_errors <= self.changes_requests
        &&& self.adjust_errors <= self.adjust_requests
    }

    /// The counters in the Prometheus text format.
    pub open spec fn rendered(self) -> Seq<char> {
        "# HELP timeweb_webhook_requests_total Number of webhook requests.\n# TYPE timeweb_webhook_requests_total counter\ntimeweb_webhook_requests_total{operation=\"records\"} "@
            + decimal(self.records_requests as nat)
            + "\ntimeweb_webhook_requests_total{operation=\"changes\"} "@
            + decimal(self.changes_requests as nat)
            + "\ntimeweb_webhook_requests_total{operation=\"adjustendpoints\"} "@
            + decimal(self.adjust_requests as nat)
            + "\n# HELP timeweb_webhook_errors_total Number of webhook errors.\n# TYPE timeweb_webhook_errors_total counter\ntimeweb_webhook_errors_total{operation=\"records\"} "@
            + decimal(self.records_errors as nat)
            + "\ntimeweb_webhook_errors_total{operation=\"changes\"} "@
            + decimal(self.changes_errors as nat)
            + "\ntimeweb_webhook_errors_total{operation=\"adjustendpoints\"} "@
            + decimal(self.adjust_errors as nat) + "\n"@
    }
}

impl Default for Metrics {
    fn default() -> (r: Metrics)
        ensures
            r@ == Counters::zero(),
    {
        Metrics {
            records_requests: 0,
            records_errors: 0,
            changes_requests: 0,
            changes_errors: 0,
            adjust_requests: 0,
            adjust_errors: 0,
        }
    }
}

impl Metrics {
    /// Counts a request for the records.
    pub fn inc_records_requests(&mut self)
        ensures
            final(self)@ == (Counters {
                records_requests: one_more(old(self)@.records_requests),
                ..old(self)@
            }),
    {
        self.records_requests = self.records_requests.wrapping_add(1);
    }

    /// Counts a failed request for the records.
    pub fn inc_records_errors(&mut self)
        ensures
            final(self)@ == (Counters {
                records_errors: one_more(old(self)@.records_errors),
                ..old(self)@
            }),
    {
        self.records_errors = self.records_errors.wrapping_add(1);
    }

    /// Counts a request to apply changes.
    pub fn inc_changes_requests(&mut self)
        ensures
            final(self)@ == (Counters {
                changes_requests: one_more(old(self)@.changes_requests),
                ..old(self)@
            }),
    {
        self.changes_requests = self.changes_requests.wrapping_add(1);
    }

    /// Counts a failed request to apply changes.
    pub fn inc_changes_errors(&mut self)
        ensures
            final(self)@ == (Counters {
                changes_errors: one_more(old(self)@.changes_errors),
                ..old(self)@
            }),
    {
        self.changes_errors = self.changes_errors.wrapping_add(1);
    }

    /// Counts a request to adjust endpoints.
    pub fn inc_adjust_requests(&mut self)
        ensures
            final(self)@ == (Counters {
                adjust_requests: one_more(old(self)@.adjust_requests),
                ..old(self)@
            }),
    {
        self.adjust_requests = self.adjust_requests.wrapping_add(1);
    }

    /// Counts a failed request to adjust endpoints.
    pub fn inc_adjust_errors(&mut self)
        ensures
            final(self)@ == (Counters {
                adjust_errors: one_more(old(self)@.adjust_errors),
                ..old(self)@
            }),
    {
        self.adjust_errors = self.adjust_errors.wrapping_add(1);
    }

    /// The counters in the Prometheus text format.
    pub fn render(&self) -> (r: String)
        ensures
            r@ == self@.rendered(),
    {
        let mut r =
            "# HELP timeweb_webhook_requests_total Number of webhook requests.\n# TYPE timeweb_webhook_requests_total counter\ntimeweb_webhook_requests_total{operation=\"records\"} ".to_owned();
        push_decimal(&mut r, self.records_requests);
        r.append("\ntimeweb_webhook_requests_total{operation=\"changes\"} ");
        push_decimal(&mut r, self.changes_requests);
        r.append("\ntimeweb_webhook_requests_total{operation=\"adjustendpoints\"} ");
        push_decimal(&mut r, self.adjust_requests);
        r.append("\n# HELP timeweb_webhook_errors_total Number of webhook errors.\n# TYPE timeweb_webhook_errors_total counter\ntimeweb_webhook_errors_total{operation=\"records\"} ");
        push_decimal(&mut r, self.records_errors);
        r.append("\ntimeweb_webhook_errors_total{operation=\"changes\"} ");
        push_decimal(&mut r, self.changes_errors);
        r.append("\ntimeweb_webhook_errors_total{operation=\"adjustendpoints\"} ");
        push_decimal(&mut r, self.adjust_errors);
        r.append("\n");
        r
    }
}

// ---------------------------------------------------------------------------
// Laws
// ---------------------------------------------------------------------------

/// A counter goes up by one, and from the end of its range to zero.
pub proof fn law_counters_go_up_by_one(n: u64)
    ensures
        n < u64::MAX ==> one_more(n) == n + 1,
        n == u64::MAX ==> one_more(n) == 0,
{
}

/// A text holds another behind something and before a line end.
pub open spec fn has_line_with(text: Seq<char>, line: Seq<char>) -> bool {
    exists|a: Seq<char>, b: Seq<char>| text == #[trigger] (a + line + seq!['\n'] + b)
}

/// Each counter stands in the text form on a line of its own, behind its name.
pub proof fn law_every_counter_is_rendered(c: Counters)
    ensures
        has_line_with(
            c.rendered(),
            "\ntimeweb_webhook_requests_total{operation=\"records\"} "@ + decimal(
                c.records_requests as nat,
            ),
        ),
        has_line_with(
            c.rendered(),
            "\ntimeweb_webhook_requests_total{operation=\"changes\"} "@ + decimal(
                c.changes_requests as nat,
            ),
        ),
        has_line_with(
            c.rendered(),
            "\ntimeweb_webhook_requests_total{operation=\"adjustendpoints\"} "@ + decimal(
                c.adjust_requests as nat,
            ),
        ),
        has_line_with(
            c.rendered(),
            "\ntimeweb_webhook_errors_total{operation=\"records\"} "@ + decimal(
                c.records_errors as nat,
            ),
        ),
        has_line_with(
            c.rendered(),
            "\ntimeweb_webhook_errors_total{operation=\"changes\"} "@ + decimal(
                c.changes_errors as nat,
            ),
        ),
        has_line_with(
            c.rendered(),
            "\ntimeweb_webhook_errors_total{operation=\"adjustendpoints\"} "@ + decimal(
                c.adjust_errors as nat,
            ),
        ),
{
    let h1 = "# HELP timeweb_webhook_requests_total Number of webhook requests.\n# TYPE timeweb_webhook_requests_total counter\ntimeweb_webhook_requests_total{operation=\"records\"} "@;
    let h2 = "\n# HELP timeweb_webhook_errors_total Number of webhook errors.\n# TYPE timeweb_webhook_errors_total counter\ntimeweb_webhook_errors_total{operation=\"records\"} "@;
    let n1 = "\ntimeweb_webhook_requests_total{operation=\"records\"} "@;
    let n2 = "\ntimeweb_webhook_requests_total{operation=\"changes\"} "@;
    let n3 = "\ntimeweb_webhook_requests_total{operation=\"adjustendpoints\"} "@;
    let n4 = "\ntimeweb_webhook_errors_total{operation=\"records\"} "@;
    let n5 = "\ntimeweb_webhook_errors_total{operation=\"changes\"} "@;
    let n6 = "\ntimeweb_webhook_errors_total{operation=\"adjustendpoints\"} "@;
    let d1 = decimal(c.records_requests as nat);
    let d2 = decimal(c.changes_requests as nat);
    let d3 = decimal(c.adjust_requests as nat);
    let d4 = decimal(c.records_errors as nat);
    let d5 = decimal(c.changes_errors as nat);
    let d6 = decimal(c.adjust_errors as nat);
    reveal_strlit("\n");
    assert("\n"@ =~= seq!['\n']);
    lemma_heads(h1, h2, n1, n4);
    lemma_names_start_lines();
    let p1 = h1.take(h1.len() - n1.len());
    let p2 = h2.take(h2.len() - n4.len());
    let t6 = n6 + d6 + "\n"@;
    let t5 = n5 + d5 + t6;
    let t4 = h2 + d4 + t5;
    let t3 = n3 + d3 + t4;
    let t2 = n2 + d2 + t3;
    let whole = c.rendered();
    assert(whole =~= h1 + d1 + t2);
    assert(t2[0] == '\n' && t3[0] == '\n' && t4[0] == '\n' && t5[0] == '\n' && t6[0] == '\n');
    lemma_line(whole, p1, n1 + d1, t2);
    lemma_line(whole, h1 + d1, n2 + d2, t3);
    lemma_line(whole, h1 + d1 + n2 + d2, n3 + d3, t4);
    lemma_line(whole, h1 + d1 + n2 + d2 + n3 + d3 + p2, n4 + d4, t5);
    lemma_line(whole, h1 + d1 + n2 + d2 + n3 + d3 + h2 + d4, n5 + d5, t6);
    lemma_line(whole, h1 + d1 + n2 + d2 + n3 + d3 + h2 + d4 + n5 + d5, n6 + d6, "\n"@);
}

proof fn lemma_line(whole: Seq<char>, a: Seq<char>, line: Seq<char>, tail: Seq<char>)
    requires
        whole =~= a + line + tail,
        tail.len() > 0,
        tail[0] == '\n',
    ensures
        has_line_with(whole, line),
{
    let b = tail.drop_first();
    assert(tail =~= seq!['\n'] + b);
    assert(whole =~= a + line + seq!['\n'] + b);
}

proof fn lemma_heads(h1: Seq<char>, h2: Seq<char>, n1: Seq<char>, n4: Seq<char>)
    requires
        h1
            == "# HELP timeweb_webhook_requests_total Number of webhook requests.\n# TYPE timeweb_webhook_requests_total counter\ntimeweb_webhook_requests_total{operation=\"records\"} "@,
        h2
            == "\n# HELP timeweb_webhook_errors_total Number of webhook errors.\n# TYPE timeweb_webhook_errors_total counter\ntimeweb_webhook_errors_total{operation=\"records\"} "@,
        n1 == "\ntimeweb_webhook_requests_total{operation=\"records\"} "@,
        n4 == "\ntimeweb_webhook_errors_total{operation=\"records\"} "@,
    ensures
        h1 =~= h1.take(h1.len() - n1.len()) + n1,
        h2 =~= h2.take(h2.len() - n4.len()) + n4,
        h2.len() > 0,
        h2[0] == '\n',
{
    reveal_strlit("# HELP timeweb_webhook_requests_total Number of webhook requests.\n# TYPE timeweb_webhook_requests_total counter\ntimeweb_webhook_requests_total{operation=\"records\"} ");
    reveal_strlit("\n# HELP timeweb_webhook_errors_total Number of webhook errors.\n# TYPE timeweb_webhook_errors_total counter\ntimeweb_webhook_errors_total{operation=\"records\"} ");
    reveal_strlit("\ntimeweb_webhook_requests_total{operation=\"records\"} ");
    reveal_strlit("\ntimeweb_webhook_errors_total{operation=\"records\"} ");
}

proof fn lemma_names_start_lines()
    ensures
        "\ntimeweb_webhook_requests_total{operation=\"changes\"} "@.len() > 0,
        "\ntimeweb_webhook_requests_total{operation=\"changes\"} "@[0] == '\n',
        "\ntimeweb_webhook_requests_total{operation=\"adjustendpoints\"} "@.len() > 0,
        "\ntimeweb_webhook_requests_total{operation=\"adjustendpoints\"} "@[0] == '\n',
        "\ntimeweb_webhook_errors_total{operation=\"changes\"} "@.len() > 0,
        "\ntimeweb_webhook_errors_total{operation=\"changes\"} "@[0] == '\n',
        "\ntimeweb_webhook_errors_total{operation=\"adjustendpoints\"} "@.len() > 0,
        "\ntimeweb_webhook_errors_total{operation=\"adjustendpoints\"} "@[0] == '\n',
{
    reveal_strlit("\ntimeweb_webhook_requests_total{operation=\"changes\"} ");
    reveal_strlit("\ntimeweb_webhook_requests_total{operation=\"adjustendpoints\"} ");
    reveal_strlit("\ntimeweb_webhook_errors_total{operation=\"changes\"} ");
    reveal_strlit("\ntimeweb_webhook_errors_total{operation=\"adjustendpoints\"} ");
}

} // verus!
