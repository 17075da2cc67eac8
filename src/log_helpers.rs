use vstd::prelude::*;

use crate::log_config;

verus! {

/// One kind of span event, as it is named in settings.
#[derive(PartialEq, Eq, Structural, Debug, Clone, Copy)]
pub enum SpanEvent {
    New,
    Enter,
    Exit,
    Close,
}

/// The set that holds just the event `e`.
pub open spec fn event_flags(e: SpanEvent) -> log_config::SpanEvents {
    log_config::SpanEvents {
        new: e == SpanEvent::New,
        enter: e == SpanEvent::Enter,
        exit: e == SpanEvent::Exit,
        close: e == SpanEvent::Close,
    }
}

/// The events of a set, in the order new, enter, exit, close.
pub open spec fn event_list(s: log_config::SpanEvents) -> Seq<SpanEvent> {
    (if s.new {
        seq![SpanEvent::New]
    } else {
        Seq::empty()
    }) + (if s.enter {
        seq![SpanEvent::Enter]
    } else {
        Seq::empty()
    }) + (if s.exit {
        seq![SpanEvent::Exit]
    } else {
        Seq::empty()
    }) + (if s.close {
        seq![SpanEvent::Close]
    } else {
        Seq::empty()
    })
}

/// The set of the events listed in `s`.
pub open spec fn flags_of(s: Seq<SpanEvent>) -> log_config::SpanEvents
    decreases s.len(),
{
    if s.len() == 0 {
        log_config::SpanEvents { new: false, enter: false, exit: false, close: false }
    } else {
        let f = flags_of(s.drop_last());
        let e = event_flags(s.last());
        log_config::SpanEvents {
            new: f.new || e.new,
            enter: f.enter || e.enter,
            exit: f.exit || e.exit,
            close: f.close || e.close,
        }
    }
}

impl SpanEvent {
    pub fn to_fmt_span(self) -> (r: log_config::SpanEvents)
        ensures
            r == event_flags(self),
    {
        log_config::SpanEvents {
            new: self == SpanEvent::New,
            enter: self == SpanEvent::Enter,
            exit: self == SpanEvent::Exit,
            close: self == SpanEvent::Close,
        }
    }

    /// The events of `events`, in the order new, enter, exit, close.
    pub fn from_fmt_span(events: log_config::SpanEvents) -> (r: Vec<SpanEvent>)
        ensures
            r@ == event_list(events),
    {
        let mut r: Vec<SpanEvent> = Vec::new();
        if events.new {
            r.push(SpanEvent::New);
        }
        if events.enter {
            r.push(SpanEvent::Enter);
        }
        if events.exit {
            r.push(SpanEvent::Exit);
        }
        if events.close {
            r.push(SpanEvent::Close);
        }
        proof {
            assert(r@ =~= event_list(events));
        }
        r
    }
}

/// The word that stands for "no span events" in settings.
#[derive(PartialEq, Eq, Structural, Debug, Clone, Copy)]
pub enum NoneTag {
    NoEvents,
}

/// Span events as settings write them: a list of event names, the word `none`,
/// or null.
#[derive(Debug, Clone)]
pub enum SpanEvents {
    List(Vec<SpanEvent>),
    Empty(NoneTag),
    Null,
}

impl SpanEvents {
    /// A non-empty set as its list of events; the empty set as the word `none`.
    pub fn from_fmt_span(events: log_config::SpanEvents) -> (r: SpanEvents)
        ensures
            event_list(events).len() > 0 ==> (r matches SpanEvents::List(v) && v@ == event_list(
                events,
            )),
            event_list(events).len() == 0 ==> (r matches SpanEvents::Empty(NoneTag::NoEvents)),
    {
        let events = SpanEvent::from_fmt_span(events);
        if events.len() > 0 {
            SpanEvents::List(events)
        } else {
            SpanEvents::Empty(NoneTag::NoEvents)
        }
    }

    /// The set of the listed events; `none` and null are the empty set.
    pub fn to_fmt_span(&self) -> (r: log_config::SpanEvents)
        ensures
            r == match self {
                SpanEvents::List(v) => flags_of(v@),
                _ => flags_of(Seq::empty()),
            },
    {
        match self {
            SpanEvents::List(events) => {
                let mut acc = log_config::SpanEvents::none();
                let mut i: usize = 0;
                while i < events.len()
                    invariant
                        0 <= i <= events.len(),
                        acc == flags_of(events@.subrange(0, i as int)),
                    decreases events.len() - i,
                {
                    proof {
                        assert(events@.subrange(0, i + 1).drop_last() =~= events@.subrange(
                            0,
                            i as int,
                        ));
                    }
                    acc = acc.union(events[i].to_fmt_span());
                    i = i + 1;
                }
                proof {
                    assert(events@.subrange(0, i as int) =~= events@);
                }
                acc
            },
            _ => log_config::SpanEvents::none(),
        }
    }
}

/// The word that stands for automatic coloring in settings.
#[derive(PartialEq, Eq, Structural, Debug, Clone, Copy)]
pub enum AutoTag {
    Auto,
}

/// Coloring as settings write it: the word `auto`, or a boolean.
#[derive(PartialEq, Eq, Structural, Debug, Clone, Copy)]
pub enum Color {
    Auto(AutoTag),
    Bool(bool),
}

impl From<log_config::Color> for Color {
    fn from(color: log_config::Color) -> (r: Color) {
        match color {
            log_config::Color::Auto => Color::Auto(AutoTag::Auto),
            log_config::Color::Enable => Color::Bool(true),
            log_config::Color::Disable => Color::Bool(false),
        }
    }
}

impl vstd::std_specs::convert::FromSpecImpl<log_config::Color> for Color {
    open spec fn obeys_from_spec() -> bool {
        true
    }

    open spec fn from_spec(color: log_config::Color) -> Color {
        match color {
            log_config::Color::Auto => Color::Auto(AutoTag::Auto),
            log_config::Color::Enable => Color::Bool(true),
            log_config::Color::Disable => Color::Bool(false),
        }
    }
}

impl From<Color> for log_config::Color {
    fn from(color: Color) -> (r: log_config::Color) {
        match color {
            Color::Auto(_) => log_config::Color::Auto,
            Color::Bool(true) => log_config::Color::Enable,
            Color::Bool(false) => log_config::Color::Disable,
        }
    }
}

impl vstd::std_specs::convert::FromSpecImpl<Color> for log_config::Color {
    open spec fn obeys_from_spec() -> bool {
        true
    }

    open spec fn from_spec(color: Color) -> log_config::Color {
        match color {
            Color::Auto(_) => log_config::Color::Auto,
            Color::Bool(true) => log_config::Color::Enable,
            Color::Bool(false) => log_config::Color::Disable,
        }
    }
}

proof fn lemma_flags_push(s: Seq<SpanEvent>, e: SpanEvent)
    ensures
        flags_of(s.push(e)) == (log_config::SpanEvents {
            new: flags_of(s).new || e == SpanEvent::New,
            enter: flags_of(s).enter || e == SpanEvent::Enter,
            exit: flags_of(s).exit || e == SpanEvent::Exit,
            close: flags_of(s).close || e == SpanEvent::Close,
        }),
{
    assert(s.push(e).drop_last() =~= s);
}

/// The list that a sequence of flags gives, extended by one optional event.
spec fn push_if(s: Seq<SpanEvent>, b: bool, e: SpanEvent) -> Seq<SpanEvent> {
    if b {
        s.push(e)
    } else {
        s
    }
}

/// Writing a set of span events as a list and reading it back gives the set.
pub proof fn lemma_span_events_round_trip(events: log_config::SpanEvents)
    ensures
        flags_of(event_list(events)) == events,
{
    let e0 = Seq::<SpanEvent>::empty();
    let a = push_if(e0, events.new, SpanEvent::New);
    let b = push_if(a, events.enter, SpanEvent::Enter);
    let c = push_if(b, events.exit, SpanEvent::Exit);
    let d = push_if(c, events.close, SpanEvent::Close);
    assert(event_list(events) =~= d);
    lemma_flags_push(e0, SpanEvent::New);
    lemma_flags_push(a, SpanEvent::Enter);
    lemma_flags_push(b, SpanEvent::Exit);
    lemma_flags_push(c, SpanEvent::Close);
}

} // verus!
