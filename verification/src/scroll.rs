//! Reading a collection page by page.

use vstd::prelude::*;

verus! {

/// How many points one page holds at most.
pub const PAGE_LIMIT: usize = 1000;

/// One page of a collection: its items, and where the next page starts.
pub struct Page<T, O> {
    pub items: Vec<T>,
    pub next: Option<O>,
}

/// What to do after a page.
pub enum ScrollStep<T, O> {
    /// Fetch the page that starts at the offset; these are the items so far.
    Fetch(Vec<T>, O),
    /// Every page was read; these are the items of all of them.
    Done(Vec<T>),
    /// A page could not be read, with the reason.
    Failed(String),
}

/// Whether `step` is what follows a page: the items of the page go behind those before it, and the
/// next page is fetched where there is one.
pub open spec fn follows<T, O>(
    items: Seq<T>,
    page: Result<Page<T, O>, String>,
    step: ScrollStep<T, O>,
) -> bool {
    match page {
        Err(reason) => step == ScrollStep::<T, O>::Failed(reason),
        Ok(page) => match (page.next, step) {
            (Some(offset), ScrollStep::Fetch(all, at)) => all@ == items + page.items@ && at
                == offset,
            (None, ScrollStep::Done(all)) => all@ == items + page.items@,
            _ => false,
        },
    }
}

/// Takes a page in: its items follow those of the pages before it.
pub fn scroll_collection<T, O>(items: Vec<T>, page: Result<Page<T, O>, String>) -> (res: ScrollStep<
    T,
    O,
>)
    ensures
        follows(items@, page, res),
{
    match page {
        Err(reason) => ScrollStep::Failed(reason),
        Ok(page) => {
            let mut items = items;
            let mut more = page.items;
            items.append(&mut more);
            match page.next {
                Some(offset) => ScrollStep::Fetch(items, offset),
                None => ScrollStep::Done(items),
            }
        },
    }
}

/// The items of a list of pages, in order.
pub open spec fn items_of<T, O>(pages: Seq<Page<T, O>>) -> Seq<T>
    decreases pages.len(),
{
    if pages.len() == 0 {
        Seq::empty()
    } else {
        items_of(pages.drop_last()) + pages.last().items@
    }
}

/// Whether `steps` are those of reading `pages` one after the other, from no items on.
pub open spec fn reads<T, O>(pages: Seq<Page<T, O>>, steps: Seq<ScrollStep<T, O>>) -> bool {
    &&& steps.len() == pages.len()
    &&& pages.len() > 0 ==> follows(Seq::empty(), Ok(pages[0]), steps[0])
    &&& forall|i: int|
        0 < i < pages.len() ==> (match steps[i - 1] {
            ScrollStep::Fetch(items, _) => follows(items@, Ok(pages[i]), #[trigger] steps[i]),
            _ => false,
        })
}

/// Taking in all pages of a collection in turn gives the items of all of them, in order: each but
/// the last asks for the next, and the last ends the reading.
pub proof fn law_all_pages_are_read<T, O>(pages: Seq<Page<T, O>>, steps: Seq<ScrollStep<T, O>>)
    requires
        pages.len() > 0,
        reads(pages, steps),
    ensures
        match steps.last() {
            ScrollStep::Done(all) => all@ == items_of(pages) && pages.last().next is None,
            ScrollStep::Fetch(all, at) => all@ == items_of(pages) && pages.last().next == Some(at),
            ScrollStep::Failed(_) => false,
        },
        forall|i: int|
            0 <= i < pages.len() - 1 ==> (#[trigger] steps[i]) is Fetch,
    decreases pages.len(),
{
    let n = pages.len() - 1;
    if n == 0 {
        assert(items_of(pages.drop_last()) =~= Seq::<T>::empty());
        assert(steps.last() == steps[0]);
    } else {
        let fewer = pages.drop_last();
        let before = steps.drop_last();
        assert forall|i: int| 0 < i < fewer.len() implies (match before[i - 1] {
            ScrollStep::Fetch(items, _) => follows(items@, Ok(fewer[i]), #[trigger] before[i]),
            _ => false,
        }) by {
            assert(steps[i] == before[i]);
        }
        law_all_pages_are_read(fewer, before);
        assert(steps[n] == steps.last());
        assert(before.last() == steps[n - 1]);
        assert forall|i: int| 0 <= i < pages.len() - 1 implies (#[trigger] steps[i]) is Fetch by {
            if i < n - 1 {
                assert(before[i] == steps[i]);
            }
        }
    }
}

} // verus!
