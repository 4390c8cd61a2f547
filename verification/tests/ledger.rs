use sluice::ledger::{Ledger, Usage};

fn usage(r: u64, p: u64, c: u64) -> Usage {
    Usage {
        requests: r,
        prompt_tokens: p,
        completion_tokens: c,
    }
}

#[test]
fn a_restart_does_not_erase_what_came_before() {
    let mut first = Ledger::load(&[]);
    first.absorb(&[("m".into(), usage(10, 1_000, 100))]);

    // A new process: metrics are back at zero and climb again from there.
    let mut second = Ledger::load(&first.totals());
    second.absorb(&[("m".into(), usage(3, 400, 40))]);

    let s = &second.served()[0].1;
    assert_eq!(s.requests, 13, "totals must span processes");
    assert_eq!(s.prompt_tokens, 1_400);
    assert_eq!(s.completion_tokens, 140);
}

#[test]
fn absorbing_the_same_counters_twice_does_not_double_count() {
    // The tick reports absolute values, so a retry or an overlapping tick
    // must be harmless; otherwise the headline number inflates on its own.
    let mut led = Ledger::load(&[]);
    led.absorb(&[("m".into(), usage(5, 500, 50))]);
    led.absorb(&[("m".into(), usage(5, 500, 50))]);
    assert_eq!(led.served()[0].1.prompt_tokens, 500);
}

#[test]
fn models_that_served_nothing_are_omitted() {
    // /v1/props and /v1/models are recorded as models by the metrics layer
    // but carry no tokens; a row of zeroes priced at zero is noise.
    let mut led = Ledger::load(&[]);
    led.absorb(&[
        ("real".into(), usage(1, 100, 10)),
        ("props".into(), usage(9, 0, 0)),
    ]);
    let s = led.served();
    assert_eq!(s.len(), 1);
    assert_eq!(s[0].0, "real");
    assert_eq!(led.totals().len(), 2, "the totals keep every model");
}

#[test]
fn usage_adds_up_field_by_field() {
    let u = usage(1, 2, 3).plus(usage(10, 20, 30));
    assert_eq!((u.requests, u.prompt_tokens, u.completion_tokens), (11, 22, 33));
    let full = usage(u64::MAX, 0, 0).plus(usage(5, 0, 0));
    assert_eq!(full.requests, u64::MAX, "a full counter stays full");
}
