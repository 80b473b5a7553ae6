# minimal_pdf_converter

Converts between PDF files and text, Markdown, Word documents, presentations and
images. The library in `src/` is verified with Verus: what each function returns
or changes is stated in its contract and proved. The program in `app/` reads and
writes the files, runs jobs on threads and speaks to a window over standard
input and output.

| Module | What it holds |
| --- | --- |
| `pdf` | reads PDF files: lexical rules, objects, cross-reference tables and streams, filters, page trees, character maps and the text of pages |
| `paginate`, `pdf_writer`, `pdf_out` | lay text out on pages and write it as PDF |
| `read_back` | proofs that what `pdf_writer` writes is what `pdf` reads |
| `docx`, `docx_marks`, `docx_layout`, `xml`, `xml_marks`, `zip_store` | Word documents |
| `markdown` | text of PDF files as Markdown |
| `image` | PNG, JPEG, GIF, WebP, TIFF and BMP files as PDF, one or many |
| `render` | pages of PDF files as images |
| `svg` | what an SVG file may hold, and how its drawing is judged |
| `pptx`, `archive` | presentations made of images |
| `jobs` | what a conversion needs, the stages of a job, and putting outputs in place |
| `bridge`, `self_check` | requests from the window, and what the program finds out about itself |
| `bytes`, `text`, `table`, `rounding`, `stopping`, `utf8_check` | what the others share |

Calls into other crates (flate2, gif, image-webp, jpeg-decoder, jpeg-encoder,
png, quick-xml, ring, tiff, zip) stand behind small functions marked
`external_body`. Their doc comments name what they call and what is taken for
granted of it. Laws that speak of several functions are public proof functions
whose names begin with `law_`.

Drawing SVG files takes floating-point numbers and installed fonts, so `app/`
draws. The numbers of PDF files are held as mantissas and places of binary
floating point, and rounded as it rounds. The office suite and the engines that
typeset HTML and Markdown are programs of their own.
