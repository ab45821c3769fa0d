//! The per-book configuration the walker runs on: title, start URL,
//! description, publication date, optional cover and optional
//! final-chapter title, plus the table of known-broken "next" links
//! patched at specific chapter titles.

use vstd::prelude::*;

verus! {

/// One book's configuration record.
pub struct Book {
    pub title: &'static str,
    pub start: &'static str,
    pub desc: &'static str,
    pub date: &'static str,
    pub cover: Option<&'static str>,
    pub final_chapter_title: Option<&'static str>,
}

/// The view of an optional borrowed string.
pub open spec fn opt_view(o: Option<&str>) -> Option<Seq<char>> {
    match o {
        Some(s) => Some(s@),
        None => None,
    }
}

/// The keys the catalog knows.
pub open spec fn known_book(key: Seq<char>) -> bool {
    key == "worm"@
    || key == "pact"@
    || key == "twig"@
    || key == "glow"@
    || key == "ward"@
    || key == "pale"@
    || key == "claw"@
}

/// The configuration the catalog assigns to `key`.
pub open spec fn book_matches(key: Seq<char>, b: Book) -> bool {
    if key == "worm"@ {
        &&& b.title@ == "Worm"@
        &&& b.start@ == "https://parahumans.wordpress.com/2011/06/11/1-1/"@
        &&& b.desc@ == "An introverted teenage girl with an unconventional superpower, Taylor goes out in costume to find escape from a deeply unhappy and frustrated civilian life. Her first attempt at taking down a supervillain sees her mistaken for one, thrusting her into the midst of the local ‚Äòcape‚Äô scene‚Äôs politics, unwritten rules, and ambiguous morals. As she risks life and limb, Taylor faces the dilemma of having to do the wrong things for the right reasons."@
        &&& b.date@ == "Tue, 19 Nov 2013 00:00:00 +0100"@
        &&& opt_view(b.cover) == Some("https://i.imgur.com/g0fLbQ1.jpg"@)
        &&& opt_view(b.final_chapter_title) == Some("Interlude: End"@)
    } else if key == "pact"@ {
        &&& b.title@ == "Pact"@
        &&& b.start@ == "https://pactwebserial.wordpress.com/2013/12/17/bonds-1-1/"@
        &&& b.desc@ == "Blake Thorburn was driven away from home and family by a vicious fight over inheritance, returning only for a deathbed visit with the grandmother who set it in motion. Blake soon finds himself next in line to inherit the property, a trove of dark supernatural knowledge, and the many enemies his grandmother left behind her in the small town of Jacob‚Äôs Bell."@
        &&& b.date@ == "Sat, 07 Mar 2015 00:00:00 +0100"@
        &&& opt_view(b.cover) == Some("https://preview.redd.it/9scpenoq5v671.png?width=1410&format=png&auto=webp&s=c17e05b90d886ed1858aed33fbeeee37ed35a711"@)
        &&& opt_view(b.final_chapter_title) == Some("Epilogue"@)
    } else if key == "twig"@ {
        &&& b.title@ == "Twig"@
        &&& b.start@ == "https://twigserial.wordpress.com/2014/12/24/taking-root-1-1/"@
        &&& b.desc@ == "The year is 1921, and a little over a century has passed since a great mind unraveled the underpinnings of life itself.  Every week, it seems, the papers announce great advances, solving the riddle of immortality, successfully reviving the dead, the cloning of living beings, or blending of two animals into one.  For those on the ground, every week brings new mutterings of work taken by ‚Äòstitched‚Äô men of patchwork flesh that do not need to sleep, or more fearful glances as they have to step off the sidewalks to make room for great laboratory-grown beasts.  Often felt but rarely voiced is the notion that events are already spiraling out of the control of the academies that teach these things. It is only this generation, they say, that the youth and children are able to take the mad changes in stride, accepting it all as a part of day to day life.  Of those children, a small group of strange youths from the Lambsbridge Orphanage stand out, taking a more direct hand in events."@
        &&& b.date@ == "Tue, 17 Oct 2017 00:00:00 +0200"@
        &&& opt_view(b.cover) == Some("https://i.imgur.com/3KeIJyz.jpg"@)
        &&& opt_view(b.final_chapter_title) == Some("Forest for the Trees ‚Äì e.4"@)
    } else if key == "glow"@ {
        &&& b.title@ == "Glow-worm"@
        &&& b.start@ == "https://parahumans.wordpress.com/2017/10/21/glowworm-p-1/"@
        &&& b.desc@ == "The bridge between Worm and Ward, Glow-worm introduces readers to the characters of Ward, and the consequences of Gold Morning"@
        &&& b.date@ == "Sat, 11 Nov 2017 00:00:00 +0100"@
        &&& opt_view(b.cover) is None
        &&& opt_view(b.final_chapter_title) == Some("P.9"@)
    } else if key == "ward"@ {
        &&& b.title@ == "Ward"@
        &&& b.start@ == "https://parahumans.net/2017/09/11/daybreak-1-1/"@
        &&& b.desc@ == "The unwritten rules that govern the fights and outright wars between ‚Äòcapes‚Äô have been amended: everyone gets their second chance.  It‚Äôs an uneasy thing to come to terms with when notorious supervillains and even monsters are playing at being hero.  The world ended two years ago, and as humanity straddles the old world and the new, there aren‚Äôt records, witnesses, or facilities to answer the villains‚Äô past actions in the present.  One of many compromises, uneasy truces and deceptions that are starting to splinter as humanity rebuilds. None feel the injustice of this new status quo or the lack of established footing more than the past residents of the parahuman asylums.  The facilities hosted parahumans and their victims, but the facilities are ruined or gone; one of many fragile ex-patients is left to find a place in a fractured world.  She‚Äôs perhaps the person least suited to have anything to do with this tenuous peace or to stand alongside these false heroes.  She‚Äôs put in a position to make the decision: will she compromise to help forge what they call, with dark sentiment, a second golden age?  Or will she stand tall as a gilded dark age dawns?"@
        &&& b.date@ == "Sat, 11 Nov 2017 00:00:00 +0100"@
        &&& opt_view(b.cover) == Some("https://i.redd.it/2c4czdyhnqv41.jpg"@)
        &&& opt_view(b.final_chapter_title) == Some("Last ‚Äì 20.end"@)
    } else if key == "pale"@ {
        &&& b.title@ == "Pale"@
        &&& b.start@ == "https://palewebserial.wordpress.com/2020/05/05/blood-run-cold-0-0/"@
        &&& b.desc@ == "There are ways of being inducted into the practices, those esoteric traditions that predate computers, cell phones, the engines industry, and even paper and bronze.  Make the right deals, learn the right words to say or symbols to write down, and you can make the wind listen to you, exchange your skin for that of a serpent, or call forth the sorts of monsters that appear in horror movies."@
        &&& b.date@ == "Tue, 05 May 2020 00:00:00 +0100"@
        &&& opt_view(b.cover) == Some("https://i.redd.it/xnp5vvxvnr471.png"@)
        &&& opt_view(b.final_chapter_title) is None
    } else if key == "claw"@ {
        &&& b.title@ == "Claw"@
        &&& b.start@ == "https://clawwebserial.blog/2024/03/09/the-point-1-1/"@
        &&& b.desc@ == "Joshua Munce, Sheila Hardy, Dan Whitely, Max Highland, Tonya Keifer, Marvin Su‚Ä¶ this pair has many names, but those names aren‚Äôt their own; they‚Äôre names to sell.  In a rigged and crumbling system, the only way to get ahead is to circumvent the rules, but that comes with its own risks.  Police, investigations, prison.  There are other ways, more insulated, which are to play assist to help those people.  Helping them to disappear, cleaning up messes, escrow services for the handling of good, payment, or guests.  Always keeping it professional, keeping things insulated, with layers of distance.  When others panic, with too many variables to consider in the heat of the moment, they can do the thinking.  Who would suspect this mom and dad with two kids?"@
        &&& b.date@ == "Tue, 09 Mar 2024 00:00:00 +0100"@
        &&& opt_view(b.cover) is None
        &&& opt_view(b.final_chapter_title) == Some("Loose Ends ‚Äì E.6"@)
    } else {
        false
    }
}

/// The per-book record for a catalog key, if the key is known.
pub fn get_info(key: &str) -> (r: Option<Book>)
    ensures
        (r is Some) == known_book(key@),
        r matches Some(b) ==> book_matches(key@, b),
{
    let kc = crate::strutil::to_chars(key);
    if crate::strutil::chars_eq_str(&kc, "worm") {
        Some(
            Book {
                title: "Worm",
                start: "https://parahumans.wordpress.com/2011/06/11/1-1/",
                desc: "An introverted teenage girl with an unconventional superpower, Taylor goes out in costume to find escape from a deeply unhappy and frustrated civilian life. Her first attempt at taking down a supervillain sees her mistaken for one, thrusting her into the midst of the local ‚Äòcape‚Äô scene‚Äôs politics, unwritten rules, and ambiguous morals. As she risks life and limb, Taylor faces the dilemma of having to do the wrong things for the right reasons.",
                date: "Tue, 19 Nov 2013 00:00:00 +0100",
                cover: Some("https://i.imgur.com/g0fLbQ1.jpg"),
                final_chapter_title: Some("Interlude: End"),
            },
        )
    } else if crate::strutil::chars_eq_str(&kc, "pact") {
        Some(
            Book {
                title: "Pact",
                start: "https://pactwebserial.wordpress.com/2013/12/17/bonds-1-1/",
                desc: "Blake Thorburn was driven away from home and family by a vicious fight over inheritance, returning only for a deathbed visit with the grandmother who set it in motion. Blake soon finds himself next in line to inherit the property, a trove of dark supernatural knowledge, and the many enemies his grandmother left behind her in the small town of Jacob‚Äôs Bell.",
                date: "Sat, 07 Mar 2015 00:00:00 +0100",
                cover: Some("https://preview.redd.it/9scpenoq5v671.png?width=1410&format=png&auto=webp&s=c17e05b90d886ed1858aed33fbeeee37ed35a711"),
                final_chapter_title: Some("Epilogue"),
            },
        )
    } else if crate::strutil::chars_eq_str(&kc, "twig") {
        Some(
            Book {
                title: "Twig",
                start: "https://twigserial.wordpress.com/2014/12/24/taking-root-1-1/",
                desc: "The year is 1921, and a little over a century has passed since a great mind unraveled the underpinnings of life itself.  Every week, it seems, the papers announce great advances, solving the riddle of immortality, successfully reviving the dead, the cloning of living beings, or blending of two animals into one.  For those on the ground, every week brings new mutterings of work taken by ‚Äòstitched‚Äô men of patchwork flesh that do not need to sleep, or more fearful glances as they have to step off the sidewalks to make room for great laboratory-grown beasts.  Often felt but rarely voiced is the notion that events are already spiraling out of the control of the academies that teach these things. It is only this generation, they say, that the youth and children are able to take the mad changes in stride, accepting it all as a part of day to day life.  Of those children, a small group of strange youths from the Lambsbridge Orphanage stand out, taking a more direct hand in events.",
                date: "Tue, 17 Oct 2017 00:00:00 +0200",
                cover: Some("https://i.imgur.com/3KeIJyz.jpg"),
                final_chapter_title: Some("Forest for the Trees ‚Äì e.4"),
            },
        )
    } else if crate::strutil::chars_eq_str(&kc, "glow") {
        Some(
            Book {
                title: "Glow-worm",
                start: "https://parahumans.wordpress.com/2017/10/21/glowworm-p-1/",
                desc: "The bridge between Worm and Ward, Glow-worm introduces readers to the characters of Ward, and the consequences of Gold Morning",
                date: "Sat, 11 Nov 2017 00:00:00 +0100",
                cover: None,
                final_chapter_title: Some("P.9"),
            },
        )
    } else if crate::strutil::chars_eq_str(&kc, "ward") {
        Some(
            Book {
                title: "Ward",
                start: "https://parahumans.net/2017/09/11/daybreak-1-1/",
                desc: "The unwritten rules that govern the fights and outright wars between ‚Äòcapes‚Äô have been amended: everyone gets their second chance.  It‚Äôs an uneasy thing to come to terms with when notorious supervillains and even monsters are playing at being hero.  The world ended two years ago, and as humanity straddles the old world and the new, there aren‚Äôt records, witnesses, or facilities to answer the villains‚Äô past actions in the present.  One of many compromises, uneasy truces and deceptions that are starting to splinter as humanity rebuilds. None feel the injustice of this new status quo or the lack of established footing more than the past residents of the parahuman asylums.  The facilities hosted parahumans and their victims, but the facilities are ruined or gone; one of many fragile ex-patients is left to find a place in a fractured world.  She‚Äôs perhaps the person least suited to have anything to do with this tenuous peace or to stand alongside these false heroes.  She‚Äôs put in a position to make the decision: will she compromise to help forge what they call, with dark sentiment, a second golden age?  Or will she stand tall as a gilded dark age dawns?",
                date: "Sat, 11 Nov 2017 00:00:00 +0100",
                cover: Some("https://i.redd.it/2c4czdyhnqv41.jpg"),
                final_chapter_title: Some("Last ‚Äì 20.end"),
            },
        )
    } else if crate::strutil::chars_eq_str(&kc, "pale") {
        Some(
            Book {
                title: "Pale",
                start: "https://palewebserial.wordpress.com/2020/05/05/blood-run-cold-0-0/",
                desc: "There are ways of being inducted into the practices, those esoteric traditions that predate computers, cell phones, the engines industry, and even paper and bronze.  Make the right deals, learn the right words to say or symbols to write down, and you can make the wind listen to you, exchange your skin for that of a serpent, or call forth the sorts of monsters that appear in horror movies.",
                date: "Tue, 05 May 2020 00:00:00 +0100",
                cover: Some("https://i.redd.it/xnp5vvxvnr471.png"),
                final_chapter_title: None,
            },
        )
    } else if crate::strutil::chars_eq_str(&kc, "claw") {
        Some(
            Book {
                title: "Claw",
                start: "https://clawwebserial.blog/2024/03/09/the-point-1-1/",
                desc: "Joshua Munce, Sheila Hardy, Dan Whitely, Max Highland, Tonya Keifer, Marvin Su‚Ä¶ this pair has many names, but those names aren‚Äôt their own; they‚Äôre names to sell.  In a rigged and crumbling system, the only way to get ahead is to circumvent the rules, but that comes with its own risks.  Police, investigations, prison.  There are other ways, more insulated, which are to play assist to help those people.  Helping them to disappear, cleaning up messes, escrow services for the handling of good, payment, or guests.  Always keeping it professional, keeping things insulated, with layers of distance.  When others panic, with too many variables to consider in the heat of the moment, they can do the thinking.  Who would suspect this mom and dad with two kids?",
                date: "Tue, 09 Mar 2024 00:00:00 +0100",
                cover: None,
                final_chapter_title: Some("Loose Ends ‚Äì E.6"),
            },
        )
    } else {
        None
    }
}

/// The patched "next" link at a chapter title with a known-broken link.
pub open spec fn next_override(title: Seq<char>) -> Option<Seq<char>> {
    if title == "Last \u{201a}\u{c4}\u{ec} 20.e6"@ {
        Some("https://www.parahumans.net/2020/05/02/last-20-end/"@)
    } else {
        None
    }
}

/// Looks a chapter title up in the next-link override table.
pub fn next_link_override(title: &Vec<char>) -> (r: Option<&'static str>)
    ensures
        match r {
            Some(u) => next_override(title@) == Some(u@),
            None => next_override(title@) is None,
        },
{
    if crate::strutil::chars_eq_str(title, "Last \u{201a}\u{c4}\u{ec} 20.e6") {
        Some("https://www.parahumans.net/2020/05/02/last-20-end/")
    } else {
        None
    }
}

} // verus!
