# lib

A tokenizer for JSONPath expressions such as `$..book[?(@.price < 10)]`,
written in Verus.

`Tokenizer::next_token` reads one token at a time; every token carries the byte
offset at which it starts. `PreloadedTokenizer` reads all tokens up front, hands
them out with `next_token` / `peek_token`, and renders error messages that point
at an offset with carets.

What each read yields is specified by `tokenizer::lex_step`, and the whole
stream by `tokenizer::tokenize`; the functions are proved to follow them, and
`laws` proves properties of the stream: tokens tile the input, each read
consumes exactly the token's spelling, failed reads say where the reading
stands, the preloaded tokenizer replays the step-by-step reads up to the first
error, quoted texts hold no closing quote, and a token's symbol names its kind.
