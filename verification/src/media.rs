//! The images of a page.

use crate::bindings::html;
use crate::bindings::url;
use crate::text;
use vstd::prelude::*;
use vstd::utf8::*;

verus! {

/// The trimmed source of an image, unless it is missing, blank or inlined in the page.
pub open spec fn source_of(image: (Option<Seq<char>>, Seq<Seq<char>>)) -> Option<Seq<char>> {
    match image.0 {
        Some(src) => {
            let t = text::trimmed(src);
            if t.len() == 0 || text::starts_with(t, "data:"@) {
                None
            } else {
                Some(t)
            }
        },
        None => None,
    }
}

/// Where an image is found: its resolved source, or the source itself where it does not
/// resolve; nothing where that is overlong.
pub open spec fn location(source: Seq<char>, resolved: Option<Seq<char>>) -> Option<Seq<char>> {
    let l = match resolved {
        Some(u) => u,
        None => source,
    };
    if text::byte_len(l) > 2048 {
        None
    } else {
        Some(l)
    }
}

/// Where the images of a page at `base` are found, in document order.
pub open spec fn locations(
    images: Seq<(Option<Seq<char>>, Seq<Seq<char>>)>,
    base: Seq<char>,
) -> Seq<Seq<char>>
    decreases images.len(),
{
    if images.len() == 0 {
        seq![]
    } else {
        let rest = locations(images.drop_last(), base);
        match source_of(images.last()) {
            Some(src) => match location(src, url::url_join(base, src)) {
                Some(l) => rest.push(l),
                None => rest,
            },
            None => rest,
        }
    }
}

/// The first fifty different images of a page at `base`.
pub open spec fn media_of(page: Seq<char>, base: Seq<char>) -> Seq<Seq<char>> {
    text::first(
        text::distinct(locations(html::css_select(page, "img[src]"@, "src"@), base)),
        50,
    )
}

/// The trimmed source of an image, unless it is missing, blank or inlined in the page.
pub fn image_source(image: &html::Element) -> (r: Option<String>)
    ensures
        text::opt(r) == source_of(image@),
{
    match &image.attr {
        Some(src) => {
            let t = text::trim(src.as_str());
            if t.as_str().is_empty() || text::has_prefix(t.as_str(), "data:") {
                None
            } else {
                Some(t)
            }
        },
        None => None,
    }
}

/// Where an image is found, given what its source resolves to.
pub fn image_location(source: String, resolved: Option<String>) -> (r: Option<String>)
    ensures
        text::opt(r) == location(source@, text::opt(resolved)),
{
    let l = match resolved {
        Some(u) => u,
        None => source,
    };
    if text::len(l.as_str()) > 2048 {
        None
    } else {
        Some(l)
    }
}

/// Absolute URLs of the first fifty different images of a page.
pub fn extract_media(page: &str, base_url: &str) -> (r: Vec<String>)
    ensures
        text::views(r@) == media_of(page@, base_url@),
{
    let images = html::select(page, "img[src]", "src");
    let ghost all = html::elements(images@);
    let mut found: Vec<String> = Vec::new();
    let mut i: usize = 0;
    assert(all.take(0) == Seq::<(Option<Seq<char>>, Seq<Seq<char>>)>::empty());
    while i < images.len()
        invariant
            i <= images@.len(),
            all == html::elements(images@),
            text::views(found@) == locations(all.take(i as int), base_url@),
        decreases images@.len() - i,
    {
        assert(all.take(i + 1).drop_last() == all.take(i as int));
        let ghost before = text::views(found@);
        if let Some(src) = image_source(&images[i]) {
            let resolved = url::join(base_url, src.as_str());
            if let Some(l) = image_location(src, resolved) {
                found.push(l);
                assert(text::views(found@) == before.push(l@));
            }
        }
        i += 1;
    }
    assert(all.take(i as int) == all);
    text::first_distinct(&found, 50)
}

proof fn lemma_locations(images: Seq<(Option<Seq<char>>, Seq<Seq<char>>)>, base: Seq<char>)
    ensures
        forall|i: int|
            0 <= i < locations(images, base).len() ==> text::byte_len(
                #[trigger] locations(images, base)[i],
            ) <= 2048,
    decreases images.len(),
{
    if images.len() > 0 {
        let rest = locations(images.drop_last(), base);
        lemma_locations(images.drop_last(), base);
        assert forall|i: int| 0 <= i < locations(images, base).len() implies text::byte_len(
            #[trigger] locations(images, base)[i],
        ) <= 2048 by {
            if i < rest.len() {
                assert(locations(images, base)[i] == rest[i]);
            }
        }
    }
}

/// A page yields at most fifty images, none of them twice and none with an overlong URL.
pub proof fn media_is_bounded(page: Seq<char>, base: Seq<char>)
    ensures
        media_of(page, base).len() <= 50,
        media_of(page, base).no_duplicates(),
        forall|i: int|
            0 <= i < media_of(page, base).len() ==> text::byte_len(
                #[trigger] media_of(page, base)[i],
            ) <= 2048,
{
    let all = locations(html::css_select(page, "img[src]"@, "src"@), base);
    lemma_locations(html::css_select(page, "img[src]"@, "src"@), base);
    text::distinct_keeps_each_once(all);
    assert forall|i: int| 0 <= i < media_of(page, base).len() implies text::byte_len(
        #[trigger] media_of(page, base)[i],
    ) <= 2048 by {
        let t = media_of(page, base)[i];
        assert(text::distinct(all)[i] == t);
        assert(all.contains(t));
    }
}

/// The positions of the images that have a location.
spec fn sources(images: Seq<(Option<Seq<char>>, Seq<Seq<char>>)>, base: Seq<char>) -> Seq<int>
    decreases images.len(),
{
    if images.len() == 0 {
        seq![]
    } else {
        let rest = sources(images.drop_last(), base);
        match source_of(images.last()) {
            Some(src) => match location(src, url::url_join(base, src)) {
                Some(l) => rest.push(images.len() - 1),
                None => rest,
            },
            None => rest,
        }
    }
}

proof fn lemma_sources(images: Seq<(Option<Seq<char>>, Seq<Seq<char>>)>, base: Seq<char>)
    ensures
        ({
            let at = sources(images, base);
            let l = locations(images, base);
            &&& at.len() == l.len()
            &&& forall|k: int|
                0 <= k < at.len() ==> 0 <= #[trigger] at[k] < images.len() && source_of(
                    images[at[k]],
                ) is Some && location(
                    source_of(images[at[k]])->0,
                    url::url_join(base, source_of(images[at[k]])->0),
                ) == Some(l[k])
            &&& forall|i: int|
                0 <= i < images.len() && !at.contains(i) ==> source_of(#[trigger] images[i]) is None
                    || location(
                    source_of(images[i])->0,
                    url::url_join(base, source_of(images[i])->0),
                ) is None
        }),
    decreases images.len(),
{
    if images.len() > 0 {
        let less = images.drop_last();
        lemma_sources(less, base);
        let rest = sources(less, base);
        let at = sources(images, base);
        assert forall|i: int| 0 <= i < images.len() && !at.contains(i) implies source_of(
            #[trigger] images[i],
        ) is None || location(
            source_of(images[i])->0,
            url::url_join(base, source_of(images[i])->0),
        ) is None by {
            if i < less.len() {
                assert(less[i] == images[i]);
                if rest.contains(i) {
                    let k = rest.index_of(i);
                    assert(at[k] == i);
                }
            } else if at.len() > rest.len() {
                assert(at.last() == i);
            }
        }
    }
}

/// Every image of a page is listed, where there are no more than fifty: by what its source resolves
/// to, or by the source itself where it does not resolve, unless the source is blank, inlined in
/// the page, or leads to more than 2048 bytes. What is listed is an image of the page.
pub proof fn images_are_listed(page: Seq<char>, base: Seq<char>)
    ensures
        ({
            let images = html::css_select(page, "img[src]"@, "src"@);
            let listed = media_of(page, base);
            &&& images.len() <= 50 ==> forall|i: int|
                0 <= i < images.len() && (#[trigger] images[i]).0 is Some ==> ({
                    let src = text::trimmed(images[i].0->0);
                    let l = match url::url_join(base, src) {
                        Some(u) => u,
                        None => src,
                    };
                    src.len() > 0 && !text::starts_with(src, "data:"@) && encode_utf8(l).len()
                        <= 2048 ==> listed.contains(l)
                })
            &&& forall|k: int|
                0 <= k < listed.len() ==> exists|i: int|
                    0 <= i < images.len() && (#[trigger] images[i]).0 is Some && ({
                        let src = text::trimmed(images[i].0->0);
                        &&& src.len() > 0 && !text::starts_with(src, "data:"@)
                        &&& match url::url_join(base, src) {
                            Some(u) => #[trigger] listed[k] == u,
                            None => listed[k] == src,
                        }
                    })
        }),
{
    let images = html::css_select(page, "img[src]"@, "src"@);
    let all = locations(images, base);
    let d = text::distinct(all);
    let listed = media_of(page, base);
    lemma_sources(images, base);
    let at = sources(images, base);
    text::distinct_keeps_each_once(all);
    text::first_items_are_the_beginning(d, 50);
    lemma_few_images(images, base);
    lemma_few_distinct(all);
    if images.len() <= 50 {
        assert forall|i: int| 0 <= i < images.len() && (#[trigger] images[i]).0 is Some implies ({
            let src = text::trimmed(images[i].0->0);
            let l = match url::url_join(base, src) {
                Some(u) => u,
                None => src,
            };
            src.len() > 0 && !text::starts_with(src, "data:"@) && encode_utf8(l).len() <= 2048
                ==> listed.contains(l)
        }) by {
            let src = text::trimmed(images[i].0->0);
            let l = match url::url_join(base, src) {
                Some(u) => u,
                None => src,
            };
            if src.len() > 0 && !text::starts_with(src, "data:"@) && encode_utf8(l).len() <= 2048 {
                assert(at.contains(i));
                let k = at.index_of(i);
                assert(0 <= at[k] < images.len());
                assert(all[k] == l);
                assert(all.contains(l));
                assert(d.contains(l));
            }
        }
    }
    assert forall|k: int| 0 <= k < listed.len() implies exists|i: int|
        0 <= i < images.len() && (#[trigger] images[i]).0 is Some && ({
            let src = text::trimmed(images[i].0->0);
            &&& src.len() > 0 && !text::starts_with(src, "data:"@)
            &&& match url::url_join(base, src) {
                Some(u) => #[trigger] listed[k] == u,
                None => listed[k] == src,
            }
        }) by {
        assert(listed[k] == d[k]);
        assert(d.contains(d[k]));
        assert(all.contains(d[k]));
        let m = all.index_of(d[k]);
        let i = at[m];
        assert(0 <= i < images.len());
        assert(images[i].0 is Some);
    }
}

proof fn lemma_few_images(images: Seq<(Option<Seq<char>>, Seq<Seq<char>>)>, base: Seq<char>)
    ensures
        locations(images, base).len() <= images.len(),
    decreases images.len(),
{
    if images.len() > 0 {
        lemma_few_images(images.drop_last(), base);
    }
}

proof fn lemma_few_distinct(list: Seq<Seq<char>>)
    ensures
        text::distinct(list).len() <= list.len(),
    decreases list.len(),
{
    if list.len() > 0 {
        lemma_few_distinct(list.drop_last());
    }
}

} // verus!
