use vstd::prelude::*;
use crate::text::{dec_digits, push_char, push_str, push_u64};

verus! {

/// An error: the messages of its cause chain, outermost first, and the contexts added
/// to it, oldest first.
#[derive(Debug)]
pub struct Error {
    messages: Vec<String>,
    contexts: Vec<String>,
}

/// The texts of some strings.
pub open spec fn texts(v: Seq<String>) -> Seq<Seq<char>> {
    v.map_values(|s: String| s@)
}

impl View for Error {
    /// The cause chain's messages and the contexts.
    type V = (Seq<Seq<char>>, Seq<Seq<char>>);

    closed spec fn view(&self) -> (Seq<Seq<char>>, Seq<Seq<char>>) {
        (texts(self.messages@), texts(self.contexts@))
    }
}

/// One link of an error's chain: a context, or an error of the cause chain, with its
/// message.
#[derive(Debug, Clone)]
pub enum ChainItem {
    Context(String),
    Error(String),
}

/// The text of a chain item.
pub open spec fn item_text(i: ChainItem) -> Seq<char> {
    match i {
        ChainItem::Context(s) => s@,
        ChainItem::Error(s) => s@,
    }
}

/// The chain of an error: its contexts, newest first, then its cause chain.
pub open spec fn spec_chain(e: (Seq<Seq<char>>, Seq<Seq<char>>)) -> Seq<Seq<char>> {
    e.1.reverse() + e.0
}

/// The text an error shows: its newest context, or else its own message.
pub open spec fn spec_display(e: (Seq<Seq<char>>, Seq<Seq<char>>)) -> Seq<char> {
    if e.1.len() > 0 {
        e.1.last()
    } else {
        e.0[0]
    }
}

/// The causes an error's report lists: all of its chain after the first item.
pub open spec fn spec_causes(e: (Seq<Seq<char>>, Seq<Seq<char>>)) -> Seq<Seq<char>> {
    spec_chain(e).drop_first()
}

/// The report lines for causes `0..k`: `\n    i: cause`.
pub open spec fn causes_text(cs: Seq<Seq<char>>, k: int) -> Seq<char>
    decreases k,
{
    if k <= 0 {
        Seq::empty()
    } else {
        causes_text(cs, k - 1) + "\n    "@ + dec_digits((k - 1) as nat) + ": "@ + cs[k - 1]
    }
}

/// An error's report: what it shows, then `Caused by:` and its numbered causes.
pub open spec fn spec_debug(e: (Seq<Seq<char>>, Seq<Seq<char>>)) -> Seq<char> {
    let cs = spec_causes(e);
    spec_display(e) + if cs.len() > 0 {
        "\n\nCaused by:"@ + causes_text(cs, cs.len() as int)
    } else {
        Seq::empty()
    }
}

/// The links of an error's chain that are still to come, held last link first.
pub struct Chain {
    rest: Vec<ChainItem>,
}

impl View for Chain {
    /// The links not yet handed out, in order.
    type V = Seq<ChainItem>;

    closed spec fn view(&self) -> Seq<ChainItem> {
        self.rest@.reverse()
    }
}

impl Chain {
    /// The next link, or `None` once all have been handed out.
    pub fn next(&mut self) -> (r: Option<ChainItem>)
        ensures
            old(self)@.len() == 0 ==> r.is_none() && final(self)@ == old(self)@,
            old(self)@.len() > 0 ==> r == Some(old(self)@[0]) && final(self)@ == old(self)@.drop_first(),
    {
        let ghost before = self.rest@;
        let r = self.rest.pop();
        proof {
            if before.len() > 0 {
                assert(self.rest@.reverse() =~= before.reverse().drop_first());
            }
        }
        r
    }
}

impl Error {
    /// Whether the cause chain has at least one error.
    pub closed spec fn wf(&self) -> bool {
        self.messages@.len() > 0
    }

    /// An error from the messages of an error's cause chain: the error's own message,
    /// then that of its source, and so on.
    pub fn new(chain: Vec<String>) -> (e: Error)
        requires
            chain@.len() > 0,
        ensures
            e.wf(),
            e@ == (texts(chain@), Seq::<Seq<char>>::empty()),
    {
        let e = Error { messages: chain, contexts: Vec::new() };
        assert(texts(e.contexts@) =~= Seq::<Seq<char>>::empty());
        e
    }

    /// An error with the message `message` and no source.
    pub fn msg(message: String) -> (e: Error)
        ensures
            e.wf(),
            e@ == (seq![message@], Seq::<Seq<char>>::empty()),
    {
        let mut messages: Vec<String> = Vec::new();
        messages.push(message);
        let e = Error { messages, contexts: Vec::new() };
        assert(texts(e.messages@) =~= seq![e.messages@[0]@]);
        assert(texts(e.contexts@) =~= Seq::<Seq<char>>::empty());
        e
    }

    /// The error with `context` added as its newest context.
    pub fn context(self, context: String) -> (e: Error)
        ensures
            self.wf() ==> e.wf(),
            e@ == (self@.0, self@.1.push(context@)),
    {
        let mut e = self;
        let ghost before = e.contexts@;
        e.contexts.push(context);
        assert(texts(e.contexts@) =~= texts(before).push(context@));
        e
    }

    /// The chain: contexts, newest first, then the cause chain's errors, to walk one
    /// link at a time.
    pub fn chain(&self) -> (r: Chain)
        ensures
            r@.map_values(|i: ChainItem| item_text(i)) == spec_chain(self@),
            forall|i: int| 0 <= i < self@.1.len() ==> r@[i] is Context,
            forall|i: int| self@.1.len() <= i < r@.len() ==> r@[i] is Error,
    {
        let mut items = self.chain_items();
        let ghost forward = items@;
        let mut rest: Vec<ChainItem> = Vec::new();
        while items.len() > 0
            invariant
                forward == items@ + rest@.reverse(),
            decreases items@.len(),
        {
            let ghost pre_items = items@;
            let ghost pre_rest = rest@;
            if let Some(x) = items.pop() {
                rest.push(x);
                assert(rest@.reverse() =~= seq![x] + pre_rest.reverse());
                assert(pre_items =~= items@.push(x));
                assert(forward =~= items@ + rest@.reverse());
            }
        }
        assert(items@ + rest@.reverse() =~= rest@.reverse());
        Chain { rest }
    }

    /// The links of the chain, in order.
    fn chain_items(&self) -> (r: Vec<ChainItem>)
        ensures
            r@.map_values(|i: ChainItem| item_text(i)) == spec_chain(self@),
            forall|i: int| 0 <= i < self@.1.len() ==> r@[i] is Context,
            forall|i: int| self@.1.len() <= i < r@.len() ==> r@[i] is Error,
    {
        let mut r: Vec<ChainItem> = Vec::new();
        let ghost ctx = texts(self.contexts@);
        let mut k = self.contexts.len();
        while k > 0
            invariant
                k <= self.contexts@.len(),
                ctx == texts(self.contexts@),
                r@.map_values(|i: ChainItem| item_text(i)) == ctx.reverse().take(
                    (ctx.len() - k) as int,
                ),
                r@.len() == ctx.len() - k,
                forall|i: int| 0 <= i < r@.len() ==> r@[i] is Context,
            decreases k,
        {
            k = k - 1;
            let c = self.contexts[k].clone();
            assert(c@ == ctx[k as int]);
            r.push(ChainItem::Context(c));
            assert(ctx.reverse().take((ctx.len() - k) as int) =~= ctx.reverse().take((ctx.len() - k - 1) as int).push(ctx[k as int]));
            assert(r@.map_values(|i: ChainItem| item_text(i)) =~= ctx.reverse().take(
                (ctx.len() - k) as int,
            ));
        }
        let ghost msgs = texts(self.messages@);
        let n = self.contexts.len();
        let mut j: usize = 0;
        while j < self.messages.len()
            invariant
                j <= self.messages@.len(),
                n == self.contexts@.len(),
                msgs == texts(self.messages@),
                ctx == texts(self.contexts@),
                r@.map_values(|i: ChainItem| item_text(i)) == ctx.reverse() + msgs.take(j as int),
                r@.len() == n + j,
                forall|i: int| 0 <= i < n ==> r@[i] is Context,
                forall|i: int| n <= i < r@.len() ==> r@[i] is Error,
            decreases self.messages@.len() - j,
        {
            let m = self.messages[j].clone();
            assert(m@ == msgs[j as int]);
            let ghost before = r@;
            r.push(ChainItem::Error(m));
            assert(r@.map_values(|i: ChainItem| item_text(i)) =~= before.map_values(|i: ChainItem| item_text(i)).push(msgs[j as int]));
            assert(msgs.take(j + 1) =~= msgs.take(j as int).push(msgs[j as int]));
            j = j + 1;
            assert(r@.map_values(|i: ChainItem| item_text(i)) =~= ctx.reverse() + msgs.take(
                j as int,
            ));
        }
        assert(msgs.take(j as int) =~= msgs);
        r
    }

    /// The message of the innermost error of the cause chain.
    pub fn root_cause(&self) -> (r: &str)
        requires
            self.wf(),
        ensures
            r@ == self@.0.last(),
            r@ == spec_chain(self@).last(),
    {
        proof {
            self.lemma_wf_chain();
        }
        self.messages[self.messages.len() - 1].as_str()
    }

    /// A well-formed error has at least one message in its cause chain, so its chain
    /// is not empty and ends with the innermost error's message.
    pub proof fn lemma_wf_chain(&self)
        ensures
            self.wf() <==> self@.0.len() > 0,
            self.wf() ==> spec_chain(self@).len() > 0 && spec_chain(self@).last() == self@.0.last(),
    {
        let c = spec_chain(self@);
        if self.wf() {
            assert(c[c.len() - 1] == self@.0[self@.0.len() - 1]);
        }
    }

    /// What the error shows: its newest context, or else its own message.
    pub fn to_string(&self) -> (s: String)
        requires
            self.wf(),
        ensures
            s@ == spec_display(self@),
    {
        if self.contexts.len() > 0 {
            self.contexts[self.contexts.len() - 1].clone()
        } else {
            self.messages[0].clone()
        }
    }

    /// The error's report: what it shows, then `Caused by:` and each cause numbered.
    pub fn debug_text(&self) -> (s: String)
        requires
            self.wf(),
        ensures
            s@ == spec_debug(self@),
    {
        let items = self.chain_items();
        let ghost cs = spec_causes(self@);
        let mut s = self.to_string();
        assert(items@.map_values(|i: ChainItem| item_text(i)).drop_first() =~= cs);
        if items.len() > 1 {
            push_str(&mut s, "\n\nCaused by:");
            let ghost head = s@;
            let mut k: usize = 1;
            while k < items.len()
                invariant
                    1 <= k <= items@.len(),
                    cs.len() == items@.len() - 1,
                    forall|i: int| 0 <= i < cs.len() ==> #[trigger] cs[i] == item_text(items@[i + 1]),
                    s@ == head + causes_text(cs, k - 1),
                decreases items@.len() - k,
            {
                push_str(&mut s, "\n    ");
                push_u64(&mut s, (k - 1) as u64);
                push_str(&mut s, ": ");
                match &items[k] {
                    ChainItem::Context(t) => push_str(&mut s, t.as_str()),
                    ChainItem::Error(t) => push_str(&mut s, t.as_str()),
                }
                assert(cs[k - 1] == item_text(items@[k as int]));
                assert(s@ =~= head + causes_text(cs, k as int));
                k = k + 1;
            }
        }
        s
    }
}

/// Adding a context to a failure, on results and options.
pub trait Context<T> {
    fn context(self, context: String) -> Result<T, Error>;

    fn with_context<F: FnOnce() -> String>(self, f: F) -> Result<T, Error>
        requires
            f.requires(()),
    ;
}

impl<T> Context<T> for Result<T, Error> {
    /// The value, or the error with `context` added.
    fn context(self, context: String) -> (r: Result<T, Error>)
        ensures
            match self {
                Ok(v) => r == Ok::<T, Error>(v),
                Err(e) => r matches Err(e2) && e2@ == (e@.0, e@.1.push(context@)) && (e.wf() ==> e2.wf()),
            },
    {
        match self {
            Ok(v) => Ok(v),
            Err(e) => Err(e.context(context)),
        }
    }

    /// The value, or the error with the context that `f` makes added; `f` is called
    /// only on an error.
    fn with_context<F: FnOnce() -> String>(self, f: F) -> (r: Result<T, Error>)
        ensures
            match self {
                Ok(v) => r == Ok::<T, Error>(v),
                Err(e) => r matches Err(e2) && exists|c: String| #[trigger] f.ensures((), c) && e2@ == (
                    e@.0,
                    e@.1.push(c@),
                ) && (e.wf() ==> e2.wf()),
            },
    {
        match self {
            Ok(v) => Ok(v),
            Err(e) => {
                let c = f();
                Err(e.context(c))
            },
        }
    }
}

impl<T> Context<T> for Option<T> {
    /// The value, or an error whose message is `context`.
    fn context(self, context: String) -> (r: Result<T, Error>)
        ensures
            match self {
                Some(v) => r == Ok::<T, Error>(v),
                None => r matches Err(e) && e.wf() && e@ == (seq![context@], Seq::<Seq<char>>::empty()),
            },
    {
        match self {
            Some(v) => Ok(v),
            None => Err(Error::msg(context)),
        }
    }

    /// The value, or an error whose message is what `f` makes; `f` is called only
    /// where there is no value.
    fn with_context<F: FnOnce() -> String>(self, f: F) -> (r: Result<T, Error>)
        ensures
            match self {
                Some(v) => r == Ok::<T, Error>(v),
                None => r matches Err(e) && e.wf() && exists|c: String| #[trigger] f.ensures((), c) && e@ == (
                    seq![c@],
                    Seq::<Seq<char>>::empty(),
                ),
            },
    {
        match self {
            Some(v) => Ok(v),
            None => {
                let c = f();
                Err(Error::msg(c))
            },
        }
    }
}

} // verus!
