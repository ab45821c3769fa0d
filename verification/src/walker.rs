//! The chapter-chain traversal state machine: it accumulates chapter
//! records, follows "next" links (with the per-book override table),
//! retries a cached terminus once with the cache bypassed, and halts when
//! the configured final chapter has been emitted.

use crate::books::{next_override, opt_view};
use vstd::prelude::*;

verus! {

/// One normalized chapter, immutable once produced.
pub struct ChapterRecord {
    /// Position in the chain, starting at 1.
    pub index: usize,
    /// The chapter's display title.
    pub title: String,
    /// The clean XHTML body fragment.
    pub body: String,
}

/// What the walker asks its driver to do next.
pub enum WalkCommand {
    /// Fetch and normalize this page, bypassing the cache if asked.
    FetchPage { url: String, skip_cache: bool },
    /// The chain is exhausted or the final chapter was emitted.
    Done,
}

/// Whether a title belongs to the bridge serial carried at the head of
/// one book's chain and therefore skipped there.
pub open spec fn is_bridge_title(title: Seq<char>) -> bool {
    "Glow-worm"@.len() <= title.len() && title.subrange(0, "Glow-worm"@.len() as int)
        == "Glow-worm"@
}

/// The traversal state of one book.
pub struct Walker {
    chapters: Vec<ChapterRecord>,
    current_url: String,
    retried: bool,
    skip_bridge: bool,
    final_title: Option<String>,
    next_index: usize,
}

impl Walker {
    /// The chapters accumulated so far, in traversal order.
    pub closed spec fn chapters_view(&self) -> Seq<ChapterRecord> {
        self.chapters@
    }

    /// The URL of the page currently being worked on.
    pub closed spec fn cur(&self) -> Seq<char> {
        self.current_url@
    }

    /// Whether the cache-bypass retry was already spent on this page.
    pub closed spec fn retried_here(&self) -> bool {
        self.retried
    }

    /// Whether bridge-serial chapters are skipped in this book.
    pub closed spec fn skips_bridge(&self) -> bool {
        self.skip_bridge
    }

    /// The configured final-chapter title, if any.
    pub closed spec fn final_view(&self) -> Option<Seq<char>> {
        match self.final_title {
            Some(t) => Some(t@),
            None => None,
        }
    }

    /// The index the next accepted chapter will get.
    pub closed spec fn index(&self) -> usize {
        self.next_index
    }

    /// A fresh traversal at the start URL.
    pub fn new(skip_bridge: bool, final_chapter_title: Option<&str>, start_url: &str) -> (w: Walker)
        ensures
            w.chapters_view() =~= Seq::<ChapterRecord>::empty(),
            w.cur() == start_url@,
            !w.retried_here(),
            w.skips_bridge() == skip_bridge,
            w.final_view() == opt_view(final_chapter_title),
            w.index() == 1,
    {
        Walker {
            chapters: Vec::new(),
            current_url: start_url.to_owned(),
            retried: false,
            skip_bridge,
            final_title: match final_chapter_title {
                Some(t) => Some(t.to_owned()),
                None => None,
            },
            next_index: 1,
        }
    }

    /// Consumes the walker, handing out the accumulated chapters.
    pub fn into_chapters(self) -> (r: Vec<ChapterRecord>)
        ensures
            r@ == self.chapters_view(),
    {
        self.chapters
    }

    /// One step of the traversal, fed with a normalized page: the
    /// override table may patch the page's "next" link at this exact
    /// title; a terminus that came from the cache is retried once with
    /// the cache bypassed; bridge chapters are skipped where configured;
    /// the chapter is recorded and the chain followed, until it is
    /// exhausted or the final chapter has been emitted.
    pub fn on_page(
        &mut self,
        title: String,
        body: String,
        next_url: Option<String>,
        was_cached: bool,
    ) -> (cmd: WalkCommand)
        requires
            old(self).index() < usize::MAX,
        ensures
            ({
                let next_eff = match next_override(title@) {
                    Some(u) => Some(u),
                    None => match next_url {
                        Some(u) => Some(u@),
                        None => None,
                    },
                };
                if next_eff is None && was_cached && !old(self).retried_here() {
                    // spend the one cache-bypass retry on this same page
                    &&& cmd matches WalkCommand::FetchPage { url, skip_cache } && url@ == old(
                        self,
                    ).cur() && skip_cache
                    &&& final(self).chapters_view() == old(self).chapters_view()
                    &&& final(self).cur() == old(self).cur()
                    &&& final(self).retried_here()
                    &&& final(self).index() == old(self).index()
                } else {
                    let skipped = old(self).skips_bridge() && is_bridge_title(title@);
                    let accepted = !skipped;
                    let finished = accepted && old(self).final_view() == Some(title@);
                    &&& final(self).chapters_view() == (if accepted {
                        old(self).chapters_view().push(
                            ChapterRecord { index: old(self).index(), title, body },
                        )
                    } else {
                        old(self).chapters_view()
                    })
                    &&& final(self).index() == (if accepted {
                        (old(self).index() + 1) as usize
                    } else {
                        old(self).index()
                    })
                    &&& (if finished {
                        cmd is Done
                    } else {
                        match next_eff {
                            Some(u) => cmd matches WalkCommand::FetchPage { url, skip_cache }
                                && url@ == u && !skip_cache && final(self).cur() == u
                                && !(final(self).retried_here()),
                            None => cmd is Done,
                        }
                    })
                }
            }),
            final(self).skips_bridge() == old(self).skips_bridge(),
            final(self).final_view() == old(self).final_view(),
    {
        let title_chars = crate::strutil::to_chars(title.as_str());
        let next_eff: Option<String> = match crate::books::next_link_override(&title_chars) {
            Some(u) => Some(u.to_owned()),
            None => next_url,
        };
        if next_eff.is_none() && was_cached && !self.retried {
            self.retried = true;
            let url = self.current_url.clone();
            return WalkCommand::FetchPage { url, skip_cache: true };
        }
        let bridge = crate::strutil::to_chars("Glow-worm");
        let skipped = self.skip_bridge && crate::strutil::starts_with(&title_chars, &bridge);
        let mut finished = false;
        if !skipped {
            let is_final = match &self.final_title {
                Some(t) => *t == title,
                None => false,
            };
            self.chapters.push(ChapterRecord { index: self.next_index, title, body });
            self.next_index += 1;
            finished = is_final;
        }
        if finished {
            return WalkCommand::Done;
        }
        match next_eff {
            Some(u) => {
                self.current_url = u.clone();
                self.retried = false;
                WalkCommand::FetchPage { url: u, skip_cache: false }
            },
            None => WalkCommand::Done,
        }
    }
}

} // verus!
