use vstd::prelude::*;
use vstd::arithmetic::div_mod::lemma_fundamental_div_mod_converse;
use crate::color::Color;

verus! {

/// One coloured character cell. A pixel that is not rendered still takes its
/// slot in a sprite but is never drawn nor copied into a frame buffer.
#[derive(Clone, Copy, Debug, PartialEq, Eq, Structural)]
pub struct Pixel {
    pub x: i32,
    pub y: i32,
    pub color: Color,
    pub isrendered: bool,
}

/// A compiled sprite: one pixel per grid cell, in row-major order, in the
/// sprite's own coordinates.
pub struct Sprite {
    pub pixels: Vec<Pixel>,
    pub height: u16,
    pub width: u16,
    pub center: (u16, u16),
    pub tag: Option<String>,
}

impl Sprite {
    /// One pixel per cell of the `width` by `height` grid, each inside it.
    pub open spec fn wf(&self) -> bool {
        &&& self.pixels@.len() == self.width as int * self.height as int
        &&& forall|i: int|
            0 <= i < self.pixels@.len() ==> {
                &&& 0 <= #[trigger] self.pixels@[i].x < self.width
                &&& 0 <= self.pixels@[i].y < self.height
            }
    }
}

/// What a glyph grid needs to become a sprite: the palette, the marker of
/// transparent cells and the declared size.
pub struct Metadata {
    pub color_map: Vec<(char, Color)>,
    pub transparent: char,
    pub height: u16,
    pub width: u16,
    pub tag: Option<String>,
}

/// Why a glyph grid did not compile.
#[derive(Clone, Copy, Debug, PartialEq, Eq, Structural)]
pub enum SpriteError {
    /// The grid holds `actual` palette cells where `width * height == expected`
    /// were declared.
    AspectMismatch { expected: usize, actual: usize },
    /// The pattern engine refused the character class built from the palette.
    PaletteRejected,
}

/// The colour that the palette gives `c`: that of its first entry for `c`.
pub open spec fn palette_color(entries: Seq<(char, Color)>, c: char) -> Option<Color>
    decreases entries.len(),
{
    if entries.len() == 0 {
        None
    } else if entries[0].0 == c {
        Some(entries[0].1)
    } else {
        palette_color(entries.drop_first(), c)
    }
}

/// The characters of `source` that `keep` holds, in their order.
pub open spec fn retained(source: Seq<char>, keep: Seq<char>) -> Seq<char> {
    source.filter(|c: char| keep.contains(c))
}

impl Metadata {
    /// The palette's keys, entry by entry.
    pub open spec fn keys(&self) -> Seq<char> {
        self.color_map@.map_values(|e: (char, Color)| e.0)
    }

    /// The palette maps each key once.
    pub open spec fn wf(&self) -> bool {
        self.keys().no_duplicates()
    }

    /// Whether no key appears twice in the palette.
    pub fn keys_unique(&self) -> (r: bool)
        ensures
            r == self.wf(),
    {
        let n = self.color_map.len();
        let mut i: usize = 0;
        while i < n
            invariant
                n == self.color_map@.len(),
                i <= n,
                forall|a: int, b: int|
                    0 <= a < i && 0 <= b < n && a != b ==> self.keys()[a] != self.keys()[b],
            decreases n - i,
        {
            let mut j: usize = 0;
            while j < n
                invariant
                    n == self.color_map@.len(),
                    i < n,
                    j <= n,
                    forall|a: int, b: int|
                        0 <= a < i && 0 <= b < n && a != b ==> self.keys()[a] != self.keys()[b],
                    forall|b: int| 0 <= b < j && b != i ==> self.keys()[i as int] != self.keys()[b],
                decreases n - j,
            {
                if j != i && self.color_map[i].0 == self.color_map[j].0 {
                    proof {
                        assert(self.keys()[i as int] == self.keys()[j as int]);
                    }
                    return false;
                }
                j += 1;
            }
            i += 1;
        }
        true
    }

    /// The characters that a glyph grid is made of: the palette's keys and
    /// the transparent marker. Any other character is layout.
    pub open spec fn listed(&self) -> Seq<char> {
        self.color_map@.map_values(|e: (char, Color)| e.0).push(self.transparent)
    }

    /// The colour of a cell that holds `c`; black where nothing is drawn.
    pub open spec fn cell_color(&self, c: char) -> Color {
        if c == self.transparent {
            Color::Black
        } else {
            match palette_color(self.color_map@, c) {
                Some(col) => col,
                None => Color::Black,
            }
        }
    }

    /// The number of cells that the declared size asks for.
    pub open spec fn area(&self) -> int {
        self.width as int * self.height as int
    }
}

/// Whether the pattern engine refuses the character class of every
/// character but those of `keep`.
pub uninterp spec fn class_refused(keep: Seq<char>) -> bool;

/// The glyph grid with its layout removed.
pub open spec fn sanitize(source: Seq<char>, m: &Metadata) -> Seq<char> {
    retained(source, m.listed())
}

/// The pixel for cell `i` of a sanitized grid: `x` cycles through the width,
/// `y` counts the rows.
pub open spec fn grid_pixel(grid: Seq<char>, m: &Metadata, i: int) -> Pixel {
    Pixel {
        x: (i % m.width as int) as i32,
        y: (i / m.width as int) as i32,
        color: m.cell_color(grid[i]),
        isrendered: grid[i] != m.transparent,
    }
}

pub open spec fn grid_pixels(grid: Seq<char>, m: &Metadata) -> Seq<Pixel> {
    Seq::new(grid.len(), |i: int| grid_pixel(grid, m, i))
}

/// What compiling the sanitized `grid` with `m` gives: a sprite when the grid
/// has exactly one cell per declared cell, else the mismatch.
pub open spec fn compiles_to(grid: Seq<char>, m: &Metadata, r: Result<Sprite, SpriteError>) -> bool {
    if grid.len() == m.area() {
        match r {
            Ok(s) => {
                &&& s.pixels@ == grid_pixels(grid, m)
                &&& s.width == m.width
                &&& s.height == m.height
                &&& s.center == (m.width / 2, m.height / 2)
                &&& s.tag == m.tag
            },
            Err(_) => false,
        }
    } else {
        r == Err::<Sprite, SpriteError>(
            SpriteError::AspectMismatch { expected: m.area() as usize, actual: grid.len() as usize },
        )
    }
}

/// Relies on regex::escape, regex::Regex::new and regex::Regex::replace_all:
/// the pattern `[^...]` over the escaped characters of `keep` matches one
/// character that `keep` does not hold, so removing every match leaves the
/// other characters in their order. `None` where the pattern is refused,
/// which depends on the pattern alone.
#[verifier::external_body]
fn retain_listed(source: &str, keep: &Vec<char>) -> (r: Option<Vec<char>>)
    ensures
        r is None <==> class_refused(keep@),
        r matches Some(v) ==> v@ == retained(source@, keep@),
{
    let listed: String = keep.iter().collect();
    let pattern = format!("[^{}]", regex::escape(&listed));
    let re = regex::Regex::new(&pattern).ok()?;
    Some(re.replace_all(source, "").chars().collect())
}

/// The characters that a grid for `metadata` is made of.
fn listed_chars(metadata: &Metadata) -> (r: Vec<char>)
    ensures
        r@ == metadata.listed(),
{
    let mut r: Vec<char> = Vec::new();
    let n = metadata.color_map.len();
    let mut i: usize = 0;
    while i < n
        invariant
            n == metadata.color_map@.len(),
            i <= n,
            r@ == metadata.color_map@.subrange(0, i as int).map_values(|e: (char, Color)| e.0),
        decreases n - i,
    {
        r.push(metadata.color_map[i].0);
        proof {
            assert(metadata.color_map@.subrange(0, i + 1).map_values(|e: (char, Color)| e.0)
                =~= metadata.color_map@.subrange(0, i as int).map_values(|e: (char, Color)| e.0).push(
                metadata.color_map@[i as int].0,
            ));
        }
        i += 1;
    }
    proof {
        assert(metadata.color_map@.subrange(0, n as int) =~= metadata.color_map@);
    }
    r.push(metadata.transparent);
    r
}

/// Looks `c` up in the palette.
fn lookup(entries: &Vec<(char, Color)>, c: char) -> (r: Option<Color>)
    ensures
        r == palette_color(entries@, c),
{
    let n = entries.len();
    let mut i: usize = 0;
    proof {
        assert(entries@.subrange(0, n as int) =~= entries@);
    }
    while i < n
        invariant
            n == entries@.len(),
            i <= n,
            palette_color(entries@, c) == palette_color(entries@.subrange(i as int, n as int), c),
        decreases n - i,
    {
        if entries[i].0 == c {
            return Some(entries[i].1);
        }
        proof {
            assert(entries@.subrange(i as int, n as int).drop_first() =~= entries@.subrange(
                i + 1,
                n as int,
            ));
        }
        i += 1;
    }
    proof {
        assert(entries@.subrange(n as int, n as int).len() == 0);
    }
    None
}

/// Compiles a sanitized glyph grid: checks that it has one cell per declared
/// cell, then emits one pixel per cell in row-major order. A transparent cell
/// gives a pixel that is not rendered; a character that the palette does not
/// hold, which a sanitized grid never has, is drawn black.
pub fn compile_grid(grid: &Vec<char>, metadata: &Metadata) -> (r: Result<Sprite, SpriteError>)
    requires
        metadata.wf(),
    ensures
        compiles_to(grid@, metadata, r),
{
    let width = metadata.width;
    let height = metadata.height;
    proof {
        assert(0 <= width as int * height as int <= 65535 * 65535) by (nonlinear_arith)
            requires
                width <= 65535,
                height <= 65535,
        ;
    }
    let expected: usize = width as usize * height as usize;
    let actual: usize = grid.len();
    if expected != actual {
        return Err(SpriteError::AspectMismatch { expected, actual });
    }
    let mut pixels: Vec<Pixel> = Vec::new();
    let mut x: u16 = 0;
    let mut y: u16 = 0;
    let mut i: usize = 0;
    proof {
        if actual > 0 {
            assert(width > 0) by (nonlinear_arith)
                requires
                    actual as int == width as int * height as int,
                    actual > 0,
            ;
        }
    }
    while i < actual
        invariant
            actual == grid@.len(),
            actual as int == width as int * height as int,
            width == metadata.width,
            i <= actual,
            i < actual ==> x < width,
            y <= height,
            y as int * width as int + x as int == i as int,
            pixels@.len() == i,
            forall|j: int| 0 <= j < i ==> pixels@[j] == grid_pixel(grid@, metadata, j),
        decreases actual - i,
    {
        let c = grid[i];
        let rendered = c != metadata.transparent;
        let color = if rendered {
            match lookup(&metadata.color_map, c) {
                Some(col) => col,
                None => Color::Black,
            }
        } else {
            Color::Black
        };
        proof {
            lemma_fundamental_div_mod_converse(i as int, width as int, y as int, x as int);
        }
        pixels.push(Pixel { x: x as i32, y: y as i32, color, isrendered: rendered });
        x += 1;
        if x == width {
            proof {
                assert((y as int + 1) * width as int == y as int * width as int + width as int)
                    by (nonlinear_arith);
                assert(y as int + 1 <= height as int) by (nonlinear_arith)
                    requires
                        (y as int + 1) * width as int <= width as int * height as int,
                        width > 0,
                ;
            }
            x = 0;
            y += 1;
        }
        i += 1;
    }
    proof {
        assert(pixels@ =~= grid_pixels(grid@, metadata));
    }
    let tag = match &metadata.tag {
        Some(t) => Some(t.clone()),
        None => None,
    };
    Ok(Sprite { pixels, height, width, center: (width / 2, height / 2), tag })
}

/// Compiles a glyph grid written for people: every character that is neither
/// a palette key nor the transparent marker is removed, and what is left is
/// compiled as by `compile_grid`.
pub fn compile_sprite(sprite_source: &str, metadata: Metadata) -> (r: Result<Sprite, SpriteError>)
    requires
        metadata.wf(),
    ensures
        (r == Err::<Sprite, SpriteError>(SpriteError::PaletteRejected)) == class_refused(
            metadata.listed(),
        ),
        !class_refused(metadata.listed()) ==> compiles_to(
            sanitize(sprite_source@, &metadata),
            &metadata,
            r,
        ),
{
    let keep = listed_chars(&metadata);
    match retain_listed(sprite_source, &keep) {
        Some(grid) => compile_grid(&grid, &metadata),
        None => Err(SpriteError::PaletteRejected),
    }
}

/// The character of the decimal digit `d`.
pub open spec fn digit_char(d: int) -> char {
    if d == 0 {
        '0'
    } else if d == 1 {
        '1'
    } else if d == 2 {
        '2'
    } else if d == 3 {
        '3'
    } else if d == 4 {
        '4'
    } else if d == 5 {
        '5'
    } else if d == 6 {
        '6'
    } else if d == 7 {
        '7'
    } else if d == 8 {
        '8'
    } else {
        '9'
    }
}

/// `n` written in decimal, without leading zeros.
pub open spec fn decimal(n: nat) -> Seq<char>
    decreases n,
{
    if n < 10 {
        seq![digit_char(n as int)]
    } else {
        decimal(n / 10) + seq![digit_char((n % 10) as int)]
    }
}

fn digit_str(d: usize) -> (r: &'static str)
    requires
        d < 10,
    ensures
        r@ == seq![digit_char(d as int)],
{
    proof {
        reveal_strlit("0");
        reveal_strlit("1");
        reveal_strlit("2");
        reveal_strlit("3");
        reveal_strlit("4");
        reveal_strlit("5");
        reveal_strlit("6");
        reveal_strlit("7");
        reveal_strlit("8");
        reveal_strlit("9");
    }
    if d == 0 {
        "0"
    } else if d == 1 {
        "1"
    } else if d == 2 {
        "2"
    } else if d == 3 {
        "3"
    } else if d == 4 {
        "4"
    } else if d == 5 {
        "5"
    } else if d == 6 {
        "6"
    } else if d == 7 {
        "7"
    } else if d == 8 {
        "8"
    } else {
        "9"
    }
}

/// Appends `n` in decimal to `s`.
fn push_decimal(s: &mut String, n: usize)
    ensures
        final(s)@ == old(s)@ + decimal(n as nat),
    decreases n,
{
    if n >= 10 {
        push_decimal(s, n / 10);
    }
    s.append(digit_str(n % 10));
    proof {
        assert(final(s)@ =~= old(s)@ + decimal(n as nat));
    }
}

impl SpriteError {
    /// The text of `message`.
    pub open spec fn text(self) -> Seq<char> {
        match self {
            SpriteError::AspectMismatch { expected, actual } => "declared size does not match the glyph grid: expected "@
                + decimal(expected as nat) + " cells, real "@ + decimal(actual as nat)
                + "; the palette may be missing an entry"@,
            SpriteError::PaletteRejected => "the palette could not be turned into a character class"@,
        }
    }

    /// A message for people: for a mismatch, the expected and the actual
    /// number of cells and a hint at the palette.
    pub fn message(&self) -> (r: String)
        ensures
            r@ == self.text(),
    {
        match *self {
            SpriteError::AspectMismatch { expected, actual } => {
                let mut s = String::from_str("declared size does not match the glyph grid: expected ");
                push_decimal(&mut s, expected);
                s.append(" cells, real ");
                push_decimal(&mut s, actual);
                s.append("; the palette may be missing an entry");
                s
            },
            SpriteError::PaletteRejected => String::from_str(
                "the palette could not be turned into a character class",
            ),
        }
    }
}

} // verus!
